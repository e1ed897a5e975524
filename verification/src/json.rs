//! Conversion between the Lua value tree and a generic JSON value.
//!
//! The JSON value is the library's own model of the JSON data types:
//! null, booleans, numbers (integer or binary64 bits), text, arrays,
//! and objects held as key-sorted lists.  A table becomes an array
//! when all its entries are positional and an object otherwise, with
//! positional entries numbered from 1, non-text keys stringified, and
//! later entries overriding earlier ones.
#![allow(unused_imports)]
use vstd::prelude::*;
use vstd::utf8::{valid_utf8, decode_utf8, encode_utf8};
use crate::number::{LuaNumber, F64_SIGN_BIT, F64_INF_BITS, f64_abs_bits, f64_is_nan_bits};
use crate::value::{
    LuaStr, LuaValue, LuaTableEntry, ValModel, EntryModel, val_model, entry_model, lossy_utf8,
    clone_value, ents_model,
};
use crate::format::{sp_format_num, push_number, sp_dec_nat, sp_dec_int, sp_hex_float, hex_char,
    sp_hex_width, sp_trim_zeros, sp_escape_bytes};

verus! {

/// Errors when converting Lua to JSON.
#[derive(Debug, Clone, Copy, PartialEq, Eq, Structural)]
pub enum JsonConversionError {
    /// Positive infinity cannot be represented in standard JSON.
    PositiveInfinity,
    /// Negative infinity cannot be represented in standard JSON.
    NegativeInfinity,
    /// NaN cannot be represented in standard JSON.
    NaN,
    /// A string that is not valid UTF-8.
    Utf8Error,
    /// A Lua table used as a table key.
    TableKeyedWithTable,
}

/// Errors when converting JSON to Lua.
#[derive(Debug, Clone, Copy, PartialEq, Eq, Structural)]
pub enum LuaConversionError {
    /// A JSON number that fits neither `i64` nor binary64.
    Number,
}

/// Lua-to-JSON conversion options.
#[derive(Debug, PartialEq, Eq, Structural, Clone, Copy)]
pub struct JsonConversionOptions {
    /// Decode invalid UTF-8 lossily instead of failing.
    pub lossy_string: bool,
}

impl Default for JsonConversionOptions {
    /// The default options: invalid UTF-8 is an error.
    fn default() -> (r: Self)
        ensures
            !r.lossy_string,
    {
        JsonConversionOptions { lossy_string: false }
    }
}

/// The model of a JSON value.
pub enum JModel {
    /// `null`.
    Null,
    /// A boolean.
    Bool(bool),
    /// An integer number.
    Int(i64),
    /// A floating point number, as binary64 bits.
    Flt(u64),
    /// A text string.
    Text(Seq<char>),
    /// An array.
    Arr(Seq<JModel>),
    /// An object: pairs sorted by the UTF-8 encoding of their keys.
    Obj(Seq<(Seq<char>, JModel)>),
}

/// A generic JSON value.
#[derive(Debug)]
pub enum JsonValue {
    /// `null`.
    Null,
    /// A boolean.
    Bool(bool),
    /// An integer number.
    Int(i64),
    /// A floating point number, as binary64 bits.
    Float(u64),
    /// A text string.
    Text(String),
    /// An array.
    Arr(Vec<JsonValue>),
    /// An object: pairs sorted by the UTF-8 encoding of their keys.
    Obj(Vec<(String, JsonValue)>),
}

/// The model of a JSON value.
pub open spec fn jmodel(j: JsonValue) -> JModel
    decreases j,
    via jmodel_dec
{
    match j {
        JsonValue::Null => JModel::Null,
        JsonValue::Bool(b) => JModel::Bool(b),
        JsonValue::Int(v) => JModel::Int(v),
        JsonValue::Float(b) => JModel::Flt(b),
        JsonValue::Text(t) => JModel::Text(t@),
        JsonValue::Arr(items) => JModel::Arr(
            Seq::new(
                items@.len(),
                |i: int|
                    if 0 <= i < items@.len() {
                        jmodel(items@[i])
                    } else {
                        JModel::Null
                    },
            ),
        ),
        JsonValue::Obj(pairs) => JModel::Obj(
            Seq::new(
                pairs@.len(),
                |i: int|
                    if 0 <= i < pairs@.len() {
                        (pairs@[i].0@, jmodel(pairs@[i].1))
                    } else {
                        (Seq::<char>::empty(), JModel::Null)
                    },
            ),
        ),
    }
}

#[via_fn]
proof fn jmodel_dec(j: JsonValue) {
    broadcast use vstd::std_specs::vec::group_vec_axioms;

    if let JsonValue::Arr(items) = j {
        assert forall|i: int| 0 <= i < items@.len() implies decreases_to!(j => items@[i]) by {
            assert(decreases_to!(j => items));
            assert(decreases_to!(items => items[i]));
        }
    }
    if let JsonValue::Obj(pairs) = j {
        assert forall|i: int| 0 <= i < pairs@.len() implies decreases_to!(j => pairs@[i].1) by {
            assert(decreases_to!(j => pairs));
            assert(decreases_to!(pairs => pairs[i]));
            assert(decreases_to!(pairs[i] => pairs[i].1));
        }
    }
}

impl View for JsonValue {
    type V = JModel;

    open spec fn view(&self) -> JModel {
        jmodel(*self)
    }
}

/// Byte-wise lexicographic order.
pub open spec fn bytes_lt(a: Seq<u8>, b: Seq<u8>) -> bool
    decreases a.len(),
{
    if b.len() == 0 {
        false
    } else if a.len() == 0 {
        true
    } else if a[0] != b[0] {
        a[0] < b[0]
    } else {
        bytes_lt(a.drop_first(), b.drop_first())
    }
}

/// Key order: the byte-wise order of the keys' UTF-8 encodings.
pub open spec fn key_lt(a: Seq<char>, b: Seq<char>) -> bool {
    bytes_lt(encode_utf8(a), encode_utf8(b))
}

/// Key equality at the encoding level.
pub open spec fn key_eq(a: Seq<char>, b: Seq<char>) -> bool {
    encode_utf8(a) == encode_utf8(b)
}

/// Inserts a pair into a key-sorted object, replacing the pair with
/// an equal key if there is one: how a sorted map accepts a binding,
/// later bindings winning.
pub open spec fn obj_insert(obj: Seq<(Seq<char>, JModel)>, k: Seq<char>, v: JModel) -> Seq<
    (Seq<char>, JModel),
>
    decreases obj.len(),
{
    if obj.len() == 0 {
        seq![(k, v)]
    } else if key_eq(k, obj[0].0) {
        seq![(k, v)] + obj.drop_first()
    } else if key_lt(k, obj[0].0) {
        seq![(k, v)] + obj
    } else {
        seq![obj[0]] + obj_insert(obj.drop_first(), k, v)
    }
}

/// The characters standing for a byte sequence that is known to be
/// ASCII; other bytes would read as `?`.
pub open spec fn ascii_chars(v: Seq<u8>) -> Seq<char> {
    Seq::new(
        v.len(),
        |i: int|
            if 0 <= i < v.len() && v[i] < 128 {
                v[i] as char
            } else {
                '?'
            },
    )
}

/// All bytes below 0x80.
pub open spec fn all_ascii(v: Seq<u8>) -> bool {
    forall|i: int| 0 <= i < v.len() ==> #[trigger] v[i] < 128
}

/// Relies on `String::from_utf8_lossy`: ASCII bytes decode to
/// themselves.
#[verifier::external_body]
fn ascii_to_string(v: &[u8]) -> (r: String)
    requires
        all_ascii(v@),
    ensures
        r@ == ascii_chars(v@),
{
    String::from_utf8_lossy(v).into_owned()
}

/// Decimal digits are ASCII.
proof fn lemma_dec_nat_ascii(v: nat)
    ensures
        all_ascii(sp_dec_nat(v)),
    decreases v,
{
    if v >= 10 {
        lemma_dec_nat_ascii(v / 10);
        assert forall|i: int| 0 <= i < sp_dec_nat(v).len() implies #[trigger] sp_dec_nat(v)[i]
            < 128 by {
            if i < sp_dec_nat(v / 10).len() {
                assert(sp_dec_nat(v)[i] == sp_dec_nat(v / 10)[i]);
            }
        }
    }
}

/// Integer renderings are ASCII.
proof fn lemma_dec_int_ascii(v: int)
    ensures
        all_ascii(sp_dec_int(v)),
{
    lemma_dec_nat_ascii(if v < 0 {
        (-v) as nat
    } else {
        v as nat
    });
    if v < 0 {
        assert forall|i: int| 0 <= i < sp_dec_int(v).len() implies #[trigger] sp_dec_int(v)[i]
            < 128 by {
            if i >= 1 {
                assert(sp_dec_int(v)[i] == sp_dec_nat((-v) as nat)[i - 1]);
            }
        }
    }
}

/// Fixed-width hexadecimal digits are ASCII.
proof fn lemma_hex_width_ascii(v: nat, w: nat)
    ensures
        all_ascii(sp_hex_width(v, w)),
    decreases w,
{
    if w > 0 {
        lemma_hex_width_ascii(v / 16, (w - 1) as nat);
        assert forall|i: int| 0 <= i < sp_hex_width(v, w).len() implies #[trigger] sp_hex_width(
            v,
            w,
        )[i] < 128 by {
            if i < sp_hex_width(v / 16, (w - 1) as nat).len() {
                assert(sp_hex_width(v, w)[i] == sp_hex_width(v / 16, (w - 1) as nat)[i]);
            } else {
                assert(sp_hex_width(v, w)[i] == hex_char(v % 16));
            }
        }
    }
}

/// Trimming keeps bytes.
proof fn lemma_trim_ascii(digits: Seq<u8>)
    requires
        all_ascii(digits),
    ensures
        all_ascii(sp_trim_zeros(digits)),
    decreases digits.len(),
{
    if digits.len() > 1 && digits[digits.len() - 1] == 48 {
        assert(all_ascii(digits.drop_last())) by {
            assert(forall|i: int| 0 <= i < digits.drop_last().len() ==> #[trigger] digits.drop_last(
            )[i] == digits[i]);
        }
        lemma_trim_ascii(digits.drop_last());
    }
}

/// Every number rendering is ASCII.
pub proof fn lemma_format_num_ascii(n: LuaNumber)
    ensures
        all_ascii(sp_format_num(n)),
{
    match n {
        LuaNumber::Integer(v) => {
            lemma_dec_int_ascii(v as int);
        },
        LuaNumber::Float(b) => {
            let a = f64_abs_bits(b);
            if !f64_is_nan_bits(b) && a != F64_INF_BITS && a != 0 {
                let mant = (a as nat) % 0x10_0000_0000_0000;
                let eb = (a as nat) / 0x10_0000_0000_0000;
                let e: int = if eb >= 1 {
                    eb - 1023
                } else {
                    -1022
                };
                lemma_hex_width_ascii(mant, 13);
                lemma_trim_ascii(sp_hex_width(mant, 13));
                lemma_dec_int_ascii(e);
                assert(all_ascii(sp_hex_float(a as nat))) by {
                    let body = sp_hex_float(a as nat);
                    let head = seq![48u8, 120u8, if eb >= 1 {
                        49u8
                    } else {
                        48u8
                    }, 46u8];
                    let trimmed = sp_trim_zeros(sp_hex_width(mant, 13));
                    assert(forall|i: int| 0 <= i < body.len() ==> #[trigger] body[i] < 128) by {
                        assert forall|i: int| 0 <= i < body.len() implies #[trigger] body[i]
                            < 128 by {
                            if i < 4 {
                            } else if i < 4 + trimmed.len() {
                                assert(body[i] == trimmed[i - 4]);
                            } else if i == 4 + trimmed.len() {
                                assert(body[i] == 112);
                            } else {
                                assert(body[i] == sp_dec_int(e)[i - 5 - trimmed.len()]);
                            }
                        }
                    }
                }
            }
        },
    }
}

/// The characters of a table key converted to text: a string key
/// decodes as UTF-8, `nil` and the booleans read as words, and a
/// number reads as the formatter renders it.
pub open spec fn sp_json_key(k: ValModel, lossy: bool) -> Result<Seq<char>, JsonConversionError> {
    match k {
        ValModel::Str(bs) => if lossy {
            Ok(lossy_utf8(bs))
        } else if valid_utf8(bs) {
            Ok(decode_utf8(bs))
        } else {
            Err(JsonConversionError::Utf8Error)
        },
        ValModel::Nil => Ok(ascii_chars(seq![110u8, 105u8, 108u8])),
        ValModel::Bool(b) => if b {
            Ok(ascii_chars(seq![116u8, 114u8, 117u8, 101u8]))
        } else {
            Ok(ascii_chars(seq![102u8, 97u8, 108u8, 115u8, 101u8]))
        },
        ValModel::Num(n) => Ok(ascii_chars(sp_format_num(n))),
        ValModel::Table(_) => Err(JsonConversionError::TableKeyedWithTable),
    }
}

/// The JSON number of a Lua number: integers carry over, finite
/// floats keep their bits, and the non-finite values are errors.
pub open spec fn sp_json_num(n: LuaNumber) -> Result<JModel, JsonConversionError> {
    match n {
        LuaNumber::Integer(v) => Ok(JModel::Int(v)),
        LuaNumber::Float(b) => if f64_is_nan_bits(b) {
            Err(JsonConversionError::NaN)
        } else if f64_abs_bits(b) == F64_INF_BITS {
            if b >= F64_SIGN_BIT {
                Err(JsonConversionError::NegativeInfinity)
            } else {
                Err(JsonConversionError::PositiveInfinity)
            }
        } else {
            Ok(JModel::Flt(b))
        },
    }
}

/// The JSON value of a Lua value.
pub open spec fn sp_to_json(m: ValModel, lossy: bool) -> Result<JModel, JsonConversionError>
    decreases m, 1int,
    via sp_to_json_dec
{
    match m {
        ValModel::Nil => Ok(JModel::Null),
        ValModel::Bool(b) => Ok(JModel::Bool(b)),
        ValModel::Num(n) => sp_json_num(n),
        ValModel::Str(bs) => if lossy {
            Ok(JModel::Text(lossy_utf8(bs)))
        } else if valid_utf8(bs) {
            Ok(JModel::Text(decode_utf8(bs)))
        } else {
            Err(JsonConversionError::Utf8Error)
        },
        ValModel::Table(es) => if es.len() == 0 {
            Ok(JModel::Obj(Seq::empty()))
        } else {
            sp_tj_entries(es, 0, lossy, Seq::empty(), Seq::empty(), 1)
        },
    }
}

#[via_fn]
proof fn sp_to_json_dec(m: ValModel, lossy: bool) {
    if let ValModel::Table(es) = m {
        assert(decreases_to!(m => es));
    }
}

/// Folds table entries into a growing object or array: positional
/// entries collect into
/// an array until an explicit key appears; from then on everything
/// lives in the object, positional entries numbered consecutively
/// from 1.
pub open spec fn sp_tj_entries(
    es: Seq<EntryModel>,
    i: int,
    lossy: bool,
    obj: Seq<(Seq<char>, JModel)>,
    arr: Seq<JModel>,
    next: int,
) -> Result<JModel, JsonConversionError>
    decreases es, 0int, es.len() - i,
    via sp_tj_entries_dec
{
    if i < 0 || i >= es.len() {
        if obj.len() == 0 {
            Ok(JModel::Arr(arr))
        } else {
            Ok(JModel::Obj(obj))
        }
    } else {
        match es[i] {
            EntryModel::Keyed(k, v) => {
                match sp_json_key(k, lossy) {
                    Err(e) => Err(e),
                    Ok(ks) => match sp_to_json(v, lossy) {
                        Err(e) => Err(e),
                        Ok(jv) => {
                            let moved = sp_move_arr(obj, arr, next);
                            sp_tj_entries(
                                es,
                                i + 1,
                                lossy,
                                obj_insert(moved.0, ks, jv),
                                Seq::empty(),
                                moved.1,
                            )
                        },
                    },
                }
            },
            EntryModel::Named(nm, v) => {
                match sp_json_key(ValModel::Str(nm), lossy) {
                    Err(e) => Err(e),
                    Ok(ks) => match sp_to_json(v, lossy) {
                        Err(e) => Err(e),
                        Ok(jv) => {
                            let moved = sp_move_arr(obj, arr, next);
                            sp_tj_entries(
                                es,
                                i + 1,
                                lossy,
                                obj_insert(moved.0, ks, jv),
                                Seq::empty(),
                                moved.1,
                            )
                        },
                    },
                }
            },
            EntryModel::Positional(v) => {
                match sp_to_json(v, lossy) {
                    Err(e) => Err(e),
                    Ok(jv) => {
                        if obj.len() == 0 {
                            sp_tj_entries(es, i + 1, lossy, obj, arr.push(jv), next)
                        } else {
                            sp_tj_entries(
                                es,
                                i + 1,
                                lossy,
                                obj_insert(obj, ascii_chars(sp_dec_int(next)), jv),
                                arr,
                                next + 1,
                            )
                        }
                    },
                }
            },
        }
    }
}

#[via_fn]
proof fn sp_tj_entries_dec(
    es: Seq<EntryModel>,
    i: int,
    lossy: bool,
    obj: Seq<(Seq<char>, JModel)>,
    arr: Seq<JModel>,
    next: int,
) {
    broadcast use vstd::seq::group_seq_axioms;

    if 0 <= i < es.len() {
        assert(decreases_to!(es => es[i]));
        match es[i] {
            EntryModel::Keyed(k, v) => {
                assert(decreases_to!(es[i] => k));
                assert(decreases_to!(es[i] => v));
            },
            EntryModel::Named(nm, v) => {
                assert(decreases_to!(es[i] => v));
            },
            EntryModel::Positional(v) => {
                assert(decreases_to!(es[i] => v));
            },
        }
    }
}

/// Moves pending array elements into the object under their
/// positional keys, numbered from `next`.
pub open spec fn sp_move_arr(
    obj: Seq<(Seq<char>, JModel)>,
    arr: Seq<JModel>,
    next: int,
) -> (Seq<(Seq<char>, JModel)>, int)
    decreases arr.len(),
{
    if arr.len() == 0 {
        (obj, next)
    } else {
        sp_move_arr(obj_insert(obj, ascii_chars(sp_dec_int(next)), arr[0]), arr.drop_first(), next
            + 1)
    }
}

/// The model of an object's pair list.
pub open spec fn obj_model(pairs: Seq<(String, JsonValue)>) -> Seq<(Seq<char>, JModel)> {
    Seq::new(
        pairs.len(),
        |i: int|
            if 0 <= i < pairs.len() {
                (pairs[i].0@, jmodel(pairs[i].1))
            } else {
                (Seq::<char>::empty(), JModel::Null)
            },
    )
}

/// The model of an array's item list.
pub open spec fn arr_model(items: Seq<JsonValue>) -> Seq<JModel> {
    Seq::new(
        items.len(),
        |i: int|
            if 0 <= i < items.len() {
                jmodel(items[i])
            } else {
                JModel::Null
            },
    )
}

/// Byte-wise lexicographic comparison.
fn bytes_lt_exec(a: &[u8], b: &[u8]) -> (r: bool)
    ensures
        r == bytes_lt(a@, b@),
    decreases a@.len(),
{
    if b.len() == 0 {
        false
    } else if a.len() == 0 {
        true
    } else if a[0] != b[0] {
        proof {
            assert(a@[0] == a[0 as int]);
        }
        a[0] < b[0]
    } else {
        let r = bytes_lt_exec(&a[1..a.len()], &b[1..b.len()]);
        proof {
            assert(a@.subrange(1, a@.len() as int) =~= a@.drop_first());
            assert(b@.subrange(1, b@.len() as int) =~= b@.drop_first());
        }
        r
    }
}

/// Inserts a pair into a key-sorted object, later bindings winning.
fn obj_insert_exec(obj: Vec<(String, JsonValue)>, k: String, v: JsonValue) -> (r: Vec<
    (String, JsonValue),
>)
    ensures
        obj_model(r@) == obj_insert(obj_model(obj@), k@, jmodel(v)),
    decreases obj@.len(),
{
    let ghost om = obj_model(obj@);
    if obj.len() == 0 {
        let mut r: Vec<(String, JsonValue)> = Vec::new();
        r.push((k, v));
        proof {
            assert(obj_model(r@) =~= obj_insert(om, k@, jmodel(v)));
        }
        return r;
    }
    let ghost obj0 = obj@;
    let mut obj = obj;
    let head = obj.remove(0);
    proof {
        assert(obj@ =~= obj0.drop_first());
        assert(obj_model(obj@) =~= om.drop_first());
        assert(om[0] == (head.0@, jmodel(head.1)));
    }
    let keq = crate::bytes_eq(k.as_str().as_bytes(), head.0.as_str().as_bytes());
    if keq {
        let mut r: Vec<(String, JsonValue)> = Vec::new();
        r.push((k, v));
        let ghost one = r@;
        let r = append_pairs(r, obj);
        proof {
            assert(obj_model(r@) =~= obj_insert(om, k@, jmodel(v)));
        }
        r
    } else if bytes_lt_exec(k.as_str().as_bytes(), head.0.as_str().as_bytes()) {
        let mut r: Vec<(String, JsonValue)> = Vec::new();
        r.push((k, v));
        r.push(head);
        let r = append_pairs(r, obj);
        proof {
            assert(obj_model(r@) =~= obj_insert(om, k@, jmodel(v)));
        }
        r
    } else {
        let rest = obj_insert_exec(obj, k, v);
        let mut r: Vec<(String, JsonValue)> = Vec::new();
        r.push(head);
        let r = append_pairs(r, rest);
        proof {
            assert(obj_model(r@) =~= obj_insert(om, k@, jmodel(v)));
        }
        r
    }
}

/// Appends the pairs of `b` to `a`.
fn append_pairs(a: Vec<(String, JsonValue)>, b: Vec<(String, JsonValue)>) -> (r: Vec<
    (String, JsonValue),
>)
    ensures
        r@ == a@ + b@,
{
    let mut a = a;
    let mut b = b;
    let ghost a0 = a@;
    let ghost b0 = b@;
    while b.len() > 0
        invariant
            b@.len() <= b0.len(),
            a@ =~= a0 + b0.take(b0.len() - b@.len()),
            b@ =~= b0.skip(b0.len() - b@.len()),
        decreases b@.len(),
    {
        let ghost done = b0.len() - b@.len();
        let x = b.remove(0);
        proof {
            assert(x == b0[done]);
            assert(b0.take(done + 1) =~= b0.take(done).push(b0[done]));
            assert(b@ =~= b0.skip(done + 1));
        }
        a.push(x);
    }
    proof {
        assert(b0.take(b0.len() as int) =~= b0);
        assert(a@ =~= a0 + b0);
    }
    a
}

/// The text of a table key.
fn json_key(k: &LuaValue, lossy: bool) -> (r: Result<String, JsonConversionError>)
    ensures
        r matches Ok(t) ==> sp_json_key(val_model(*k), lossy) == Ok::<Seq<char>,
            JsonConversionError>(t@),
        r matches Err(e) ==> sp_json_key(val_model(*k), lossy) == Err::<Seq<char>,
            JsonConversionError>(e),
{
    match k {
        LuaValue::String(s) => {
            if lossy {
                Ok(crate::value::bytes_to_string_lossy(s.as_bytes()))
            } else {
                match crate::value::bytes_as_str(s.as_bytes()) {
                    Some(t) => Ok(crate::value::str_to_owned(t)),
                    None => Err(JsonConversionError::Utf8Error),
                }
            }
        },
        LuaValue::Nil => {
            let b: Vec<u8> = vec![110u8, 105u8, 108u8];
            proof {
                assert(b@ =~= seq![110u8, 105u8, 108u8]);
                assert(all_ascii(b@));
            }
            Ok(ascii_to_string(b.as_slice()))
        },
        LuaValue::Boolean(bv) => {
            let b: Vec<u8> = if *bv {
                vec![116u8, 114u8, 117u8, 101u8]
            } else {
                vec![102u8, 97u8, 108u8, 115u8, 101u8]
            };
            proof {
                if *bv {
                    assert(b@ =~= seq![116u8, 114u8, 117u8, 101u8]);
                } else {
                    assert(b@ =~= seq![102u8, 97u8, 108u8, 115u8, 101u8]);
                }
                assert(all_ascii(b@));
            }
            Ok(ascii_to_string(b.as_slice()))
        },
        LuaValue::Number(n) => {
            let mut buf: Vec<u8> = Vec::new();
            push_number(&mut buf, *n);
            proof {
                lemma_format_num_ascii(*n);
                assert(buf@ =~= sp_format_num(*n));
            }
            Ok(ascii_to_string(buf.as_slice()))
        },
        LuaValue::Table(_) => Err(JsonConversionError::TableKeyedWithTable),
    }
}

/// Converts a Lua value into a JSON value.
///
/// A table with only positional entries becomes an array; any other
/// non-empty table becomes an object, with positional entries keyed
/// by consecutive integers from 1 and later entries overriding
/// earlier ones.  Non-finite numbers and, unless `lossy_string` is
/// set, invalid UTF-8 are errors, as is a table used as a key.
pub fn to_json_value(value: &LuaValue, opts: &JsonConversionOptions) -> (r: Result<
    JsonValue,
    JsonConversionError,
>)
    ensures
        r matches Ok(j) ==> sp_to_json(val_model(*value), opts.lossy_string) == Ok::<JModel,
            JsonConversionError>(j@),
        r matches Err(e) ==> sp_to_json(val_model(*value), opts.lossy_string) == Err::<JModel,
            JsonConversionError>(e),
    decreases *value, 1int,
{
    match value {
        LuaValue::Nil => Ok(JsonValue::Null),
        LuaValue::Boolean(b) => Ok(JsonValue::Bool(*b)),
        LuaValue::Number(n) => {
            match n {
                LuaNumber::Integer(v) => Ok(JsonValue::Int(*v)),
                LuaNumber::Float(b) => {
                    let a: u64 = if *b >= F64_SIGN_BIT {
                        *b - F64_SIGN_BIT
                    } else {
                        *b
                    };
                    if a > F64_INF_BITS {
                        Err(JsonConversionError::NaN)
                    } else if a == F64_INF_BITS {
                        if *b >= F64_SIGN_BIT {
                            Err(JsonConversionError::NegativeInfinity)
                        } else {
                            Err(JsonConversionError::PositiveInfinity)
                        }
                    } else {
                        Ok(JsonValue::Float(*b))
                    }
                },
            }
        },
        LuaValue::String(s) => {
            if opts.lossy_string {
                Ok(JsonValue::Text(crate::value::bytes_to_string_lossy(s.as_bytes())))
            } else {
                match crate::value::bytes_as_str(s.as_bytes()) {
                    Some(t) => Ok(JsonValue::Text(crate::value::str_to_owned(t))),
                    None => Err(JsonConversionError::Utf8Error),
                }
            }
        },
        LuaValue::Table(ts) => {
            proof {
                broadcast use vstd::std_specs::vec::group_vec_axioms;

                assert(decreases_to!(*value => *ts));
                crate::value::lemma_val_model_table(*ts);
            }
            if ts.len() == 0 {
                let obj: Vec<(String, JsonValue)> = Vec::new();
                let r = JsonValue::Obj(obj);
                proof {
                    assert(jmodel(r)->Obj_0 =~= Seq::<(Seq<char>, JModel)>::empty());
                    assert(val_model(*value)->Table_0.len() == 0);
                }
                Ok(r)
            } else {
                let r = tj_entries(ts, 0, opts.lossy_string, Vec::new(), Vec::new(), 1);
                proof {
                    let es = val_model(*value)->Table_0;
                    assert(es == ents_model(ts@));
                    assert(obj_model(Seq::<(String, JsonValue)>::empty()) =~= Seq::<
                        (Seq<char>, JModel),
                    >::empty());
                    assert(arr_model(Seq::<JsonValue>::empty()) =~= Seq::<JModel>::empty());
                }
                r
            }
        },
    }
}

/// The JSON value of a number.
fn conv_number(n: &LuaNumber) -> (r: Result<JsonValue, JsonConversionError>)
    ensures
        r matches Ok(j) ==> sp_json_num(*n) == Ok::<JModel, JsonConversionError>(j@),
        r matches Err(e) ==> sp_json_num(*n) == Err::<JModel, JsonConversionError>(e),
{
    match n {
        LuaNumber::Integer(v) => Ok(JsonValue::Int(*v)),
        LuaNumber::Float(b) => {
            let a: u64 = if *b >= F64_SIGN_BIT {
                *b - F64_SIGN_BIT
            } else {
                *b
            };
            if a > F64_INF_BITS {
                Err(JsonConversionError::NaN)
            } else if a == F64_INF_BITS {
                if *b >= F64_SIGN_BIT {
                    Err(JsonConversionError::NegativeInfinity)
                } else {
                    Err(JsonConversionError::PositiveInfinity)
                }
            } else {
                Ok(JsonValue::Float(*b))
            }
        },
    }
}

/// Adds a positional value: into the array while no explicit key has
/// appeared, under the next integer key otherwise.
fn step_pos(
    obj: Vec<(String, JsonValue)>,
    arr: Vec<JsonValue>,
    next: i128,
    jv: JsonValue,
) -> (r: (Vec<(String, JsonValue)>, Vec<JsonValue>, i128))
    requires
        1 <= next <= 0x1_0000_0000_0000_0000i128,
    ensures
        obj@.len() == 0 ==> obj_model(r.0@) == obj_model(obj@) && arr_model(r.1@) == arr_model(
            arr@,
        ).push(jmodel(jv)) && r.2 == next && r.0@.len() == obj@.len() && r.1@.len() == arr@.len()
            + 1,
        obj@.len() > 0 ==> obj_model(r.0@) == obj_insert(
            obj_model(obj@),
            ascii_chars(sp_dec_int(next as int)),
            jmodel(jv),
        ) && arr_model(r.1@) == arr_model(arr@) && r.2 == next + 1 && r.1@.len() == arr@.len(),
{
    if obj.len() == 0 {
        let mut arr2 = arr;
        let ghost am = arr_model(arr2@);
        arr2.push(jv);
        proof {
            assert(arr_model(arr2@) =~= am.push(jmodel(arr2@[arr2@.len() - 1])));
        }
        (obj, arr2, next)
    } else {
        let ks = int_key_string(next);
        let obj2 = obj_insert_exec(obj, ks, jv);
        (obj2, arr, next + 1)
    }
}

/// Adds an explicitly keyed value: pending array elements move into
/// the object first.
fn step_keyed(
    obj: Vec<(String, JsonValue)>,
    arr: Vec<JsonValue>,
    next: i128,
    ks: String,
    jv: JsonValue,
) -> (r: (Vec<(String, JsonValue)>, Vec<JsonValue>, i128))
    requires
        1 <= next,
        next + arr@.len() <= 0x1_0000_0000_0000_0000i128,
    ensures
        ({
            let moved = sp_move_arr(obj_model(obj@), arr_model(arr@), next as int);
            obj_model(r.0@) == obj_insert(moved.0, ks@, jmodel(jv)) && r.2 == moved.1 && r.2
                == next + arr@.len() && r.1@.len() == 0
        }),
{
    let (obj2, next2) = move_array_to_object(obj, arr, next);
    let obj3 = obj_insert_exec(obj2, ks, jv);
    let fresh: Vec<JsonValue> = Vec::new();
    (obj3, fresh, next2)
}

/// Folds table entries into the growing object or array.
#[verifier::rlimit(100)]
fn tj_entries(
    ts: &Vec<LuaTableEntry>,
    i: usize,
    lossy: bool,
    obj: Vec<(String, JsonValue)>,
    arr: Vec<JsonValue>,
    next: i128,
) -> (r: Result<JsonValue, JsonConversionError>)
    requires
        i <= ts@.len(),
        1 <= next,
        next + arr@.len() <= i + 1,
    ensures
        r matches Ok(j) ==> sp_tj_entries(
            ents_model(ts@),
            i as int,
            lossy,
            obj_model(obj@),
            arr_model(arr@),
            next as int,
        ) == Ok::<JModel, JsonConversionError>(j@),
        r matches Err(e) ==> sp_tj_entries(
            ents_model(ts@),
            i as int,
            lossy,
            obj_model(obj@),
            arr_model(arr@),
            next as int,
        ) == Err::<JModel, JsonConversionError>(e),
    decreases *ts, 0int, ts@.len() - i,
{
    let ghost es = ents_model(ts@);
    let ghost fresh_e: Seq<JModel> = Seq::empty();
    let n: usize = ts.len();
    if i >= n {
        if obj.len() == 0 {
            let r = JsonValue::Arr(arr);
            proof {
                assert(jmodel(r)->Arr_0 =~= arr_model(arr@));
                assert(obj_model(obj@).len() == 0);
            }
            Ok(r)
        } else {
            let r = JsonValue::Obj(obj);
            proof {
                assert(jmodel(r)->Obj_0 =~= obj_model(obj@));
            }
            Ok(r)
        }
    } else {
        proof {
            broadcast use vstd::std_specs::vec::group_vec_axioms;

            assert(decreases_to!(*ts => (*ts)[i as int]));
            assert(es[i as int] == entry_model(ts@[i as int]));
        }
        let conv: Result<(Option<String>, JsonValue), JsonConversionError> = match &ts[i] {
            LuaTableEntry::KeyValue(k, v) => {
                proof {
                    assert(decreases_to!((*ts)[i as int] => *v));
                    assert(decreases_to!(*ts => *v));
                }
                match json_key(k, lossy) {
                    Err(e) => Err(e),
                    Ok(ks) => match to_json_value(
                        v,
                        &JsonConversionOptions { lossy_string: lossy },
                    ) {
                        Err(e) => Err(e),
                        Ok(jv) => Ok((Some(ks), jv)),
                    },
                }
            },
            LuaTableEntry::NameValue(nm, v) => {
                proof {
                    assert(decreases_to!((*ts)[i as int] => *v));
                    assert(decreases_to!(*ts => *v));
                }
                let kv = LuaValue::String(crate::value::clone_str(nm));
                match json_key(&kv, lossy) {
                    Err(e) => Err(e),
                    Ok(ks) => match to_json_value(
                        v,
                        &JsonConversionOptions { lossy_string: lossy },
                    ) {
                        Err(e) => Err(e),
                        Ok(jv) => Ok((Some(ks), jv)),
                    },
                }
            },
            LuaTableEntry::Value(v) => {
                proof {
                    assert(decreases_to!((*ts)[i as int] => *v));
                    assert(decreases_to!(*ts => *v));
                }
                match to_json_value(v, &JsonConversionOptions { lossy_string: lossy }) {
                    Err(e) => Err(e),
                    Ok(jv) => Ok((None, jv)),
                }
            },
            LuaTableEntry::NumberValue(num) => {
                match conv_number(num) {
                    Err(e) => Err(e),
                    Ok(jv) => Ok((None, jv)),
                }
            },
            LuaTableEntry::BooleanValue(bv) => Ok((None, JsonValue::Bool(*bv))),
            LuaTableEntry::NilValue => Ok((None, JsonValue::Null)),
        };
        match conv {
            Err(e) => Err(e),
            Ok((Some(ks), jv)) => {
                let ghost moved = sp_move_arr(obj_model(obj@), arr_model(arr@), next as int);
                let ghost ksv = ks@;
                let ghost jvm = jmodel(jv);
                let (obj3, fresh, next2) = step_keyed(obj, arr, next, ks, jv);
                proof {
                    assert(arr_model(fresh@) =~= Seq::<JModel>::empty());
                    assert(sp_tj_entries(
                        es,
                        i as int,
                        lossy,
                        obj_model(obj@),
                        arr_model(arr@),
                        next as int,
                    ) == sp_tj_entries(
                        es,
                        i as int + 1,
                        lossy,
                        obj_insert(moved.0, ksv, jvm),
                        Seq::empty(),
                        moved.1,
                    ));
                }
                tj_entries(ts, i + 1, lossy, obj3, fresh, next2)
            },
            Ok((None, jv)) => {
                let ghost jvm = jmodel(jv);
                let ghost obj_was_empty = obj@.len() == 0;
                proof {
                    assert(es[i as int] matches EntryModel::Positional(vm) && sp_to_json(
                        vm,
                        lossy,
                    ) == Ok::<JModel, JsonConversionError>(jvm));
                }
                let (obj3, arr3, next3) = step_pos(obj, arr, next, jv);
                proof {
                    if obj_was_empty {
                        assert(sp_tj_entries(
                            es,
                            i as int,
                            lossy,
                            obj_model(obj@),
                            arr_model(arr@),
                            next as int,
                        ) == sp_tj_entries(
                            es,
                            i as int + 1,
                            lossy,
                            obj_model(obj@),
                            arr_model(arr@).push(jvm),
                            next as int,
                        ));
                    } else {
                        assert(sp_tj_entries(
                            es,
                            i as int,
                            lossy,
                            obj_model(obj@),
                            arr_model(arr@),
                            next as int,
                        ) == sp_tj_entries(
                            es,
                            i as int + 1,
                            lossy,
                            obj_insert(
                                obj_model(obj@),
                                ascii_chars(sp_dec_int(next as int)),
                                jvm,
                            ),
                            arr_model(arr@),
                            next as int + 1,
                        ));
                    }
                }
                tj_entries(ts, i + 1, lossy, obj3, arr3, next3)
            },
        }
    }
}

/// The decimal text of a positional key.
fn int_key_string(next: i128) -> (r: String)
    requires
        1 <= next <= 0x2_0000_0000_0000_0000i128,
    ensures
        r@ == ascii_chars(sp_dec_int(next as int)),
{
    let mut buf: Vec<u8> = Vec::new();
    push_dec_u128(&mut buf, next as u128);
    proof {
        lemma_dec_nat_ascii(next as nat);
        assert(buf@ =~= sp_dec_int(next as int));
    }
    ascii_to_string(buf.as_slice())
}

/// Writes the decimal digits of `v` to `out`.
fn push_dec_u128(out: &mut Vec<u8>, v: u128)
    ensures
        final(out)@ == old(out)@ + sp_dec_nat(v as nat),
    decreases v,
{
    if v < 10 {
        out.push(48 + v as u8);
        proof {
            assert(old(out)@ + sp_dec_nat(v as nat) =~= old(out)@.push((48 + v) as u8));
        }
    } else {
        push_dec_u128(out, v / 10);
        out.push(48 + (v % 10) as u8);
        proof {
            assert(old(out)@ + sp_dec_nat(v as nat) =~= (old(out)@ + sp_dec_nat(
                (v / 10) as nat,
            )).push((48 + v % 10) as u8));
        }
    }
}

/// Moves pending array elements into the object under their
/// positional keys, numbered from `next`.
pub fn move_array_to_object(obj: Vec<(String, JsonValue)>, arr: Vec<JsonValue>, next: i128) -> (r: (
    Vec<(String, JsonValue)>,
    i128,
))
    requires
        1 <= next,
        next + arr@.len() <= 0x2_0000_0000_0000_0000i128,
    ensures
        (obj_model(r.0@), r.1 as int) == sp_move_arr(obj_model(obj@), arr_model(arr@), next as int),
        r.1 == next + arr@.len(),
    decreases arr@.len(),
{
    let ghost am = arr_model(arr@);
    if arr.len() == 0 {
        proof {
            assert(sp_move_arr(obj_model(obj@), am, next as int) == (obj_model(obj@), next as int));
        }
        (obj, next)
    } else {
        let mut arr = arr;
        let head = arr.remove(0);
        proof {
            assert(arr_model(arr@) =~= am.drop_first());
            assert(am[0] == jmodel(head));
        }
        let ks = int_key_string(next);
        let obj2 = obj_insert_exec(obj, ks, head);
        move_array_to_object(obj2, arr, next + 1)
    }
}


/// The Lua value of a JSON value: arrays become positional tables;
/// objects become `name = value` entries when the key is a valid
/// identifier and `[key] = value` entries otherwise.
pub open spec fn sp_from_json(j: JModel) -> ValModel
    decreases j,
    via sp_from_json_dec
{
    match j {
        JModel::Null => ValModel::Nil,
        JModel::Bool(b) => ValModel::Bool(b),
        JModel::Int(v) => ValModel::Num(LuaNumber::Integer(v)),
        JModel::Flt(b) => ValModel::Num(LuaNumber::Float(b)),
        JModel::Text(t) => ValModel::Str(encode_utf8(t)),
        JModel::Arr(items) => ValModel::Table(
            Seq::new(
                items.len(),
                |i: int|
                    if 0 <= i < items.len() {
                        EntryModel::Positional(sp_from_json(items[i]))
                    } else {
                        EntryModel::Positional(ValModel::Nil)
                    },
            ),
        ),
        JModel::Obj(pairs) => ValModel::Table(
            Seq::new(
                pairs.len(),
                |i: int|
                    if 0 <= i < pairs.len() {
                        let kb = encode_utf8(pairs[i].0);
                        if crate::is_lua_identifier(kb) {
                            EntryModel::Named(kb, sp_from_json(pairs[i].1))
                        } else {
                            EntryModel::Keyed(ValModel::Str(kb), sp_from_json(pairs[i].1))
                        }
                    } else {
                        EntryModel::Positional(ValModel::Nil)
                    },
            ),
        ),
    }
}

#[via_fn]
proof fn sp_from_json_dec(j: JModel) {
    broadcast use vstd::seq::group_seq_axioms;

    if let JModel::Arr(items) = j {
        assert forall|i: int| 0 <= i < items.len() implies decreases_to!(j => items[i]) by {
            assert(decreases_to!(j => items));
            assert(decreases_to!(items => items[i]));
        }
    }
    if let JModel::Obj(pairs) = j {
        assert forall|i: int| 0 <= i < pairs.len() implies decreases_to!(j => pairs[i].1) by {
            assert(decreases_to!(j => pairs));
            assert(decreases_to!(pairs => pairs[i]));
            assert(decreases_to!(pairs[i] => pairs[i].1));
        }
    }
}

/// Converts a JSON value to a Lua value.
///
/// The conversion always succeeds on this JSON model: every number
/// is already an `i64` or a binary64 value.
pub fn from_json_value(value: JsonValue) -> (r: Result<LuaValue<'static>, LuaConversionError>)
    ensures
        r matches Ok(v) && v@ == sp_from_json(value@),
    decreases value,
{
    match value {
        JsonValue::Null => Ok(LuaValue::Nil),
        JsonValue::Bool(b) => Ok(LuaValue::Boolean(b)),
        JsonValue::Int(v) => Ok(LuaValue::Number(LuaNumber::Integer(v))),
        JsonValue::Float(b) => Ok(LuaValue::Number(LuaNumber::Float(b))),
        JsonValue::Text(t) => Ok(
            LuaValue::String(LuaStr::Owned(crate::value::string_into_bytes(t))),
        ),
        JsonValue::Arr(items) => {
            let ghost j0 = jmodel(JsonValue::Arr(items));
            let ghost im = arr_model(items@);
            let ghost items0 = items;
            let mut items = items;
            let mut out: Vec<LuaTableEntry<'static>> = Vec::new();
            proof {
                assert(j0->Arr_0 =~= im);
                assert(items@ =~= items0@.skip(0));
            }
            while items.len() > 0
                invariant
                    value == JsonValue::Arr(items0),
                    items@ =~= items0@.skip(out@.len() as int),
                    im.len() == items0@.len(),
                    out@.len() + items@.len() == items0@.len(),
                    items@.len() <= im.len(),
                    out@.len() == im.len() - items@.len(),
                    arr_model(items@) =~= im.skip(out@.len() as int),
                    forall|t: int| 0 <= t < out@.len() ==> #[trigger] entry_model(out@[t])
                        == EntryModel::Positional(sp_from_json(im[t])),
                decreases items@.len(),
            {
                let ghost done = out@.len() as int;
                let ghost before = arr_model(items@);
                proof {
                    assert(items0@.len() == done + items@.len());
                    assert(items@[0] == items0@[done]);
                }
                let x = items.remove(0);
                proof {
                    broadcast use vstd::std_specs::vec::group_vec_axioms;

                    assert(jmodel(x) == before[0]);
                    assert(before[0] == im[done]);
                    assert(arr_model(items@) =~= before.drop_first());
                    assert(before.drop_first() =~= im.skip(done + 1));
                    assert(x == items0@[done]);
                    assert(items@ =~= items0@.skip(done + 1));
                    assert(value->Arr_0 == items0);
                    assert(decreases_to!(value => value->Arr_0));
                    assert(decreases_to!(value => items0));
                    assert(decreases_to!(items0 => items0[done]));
                    assert(items0[done] == items0@[done]);
                }
                match from_json_value(x) {
                    Ok(v) => {
                        out.push(LuaTableEntry::Value(v));
                    },
                    Err(_) => {
                        out.push(LuaTableEntry::NilValue);
                    },
                }
            }
            let r = LuaValue::Table(out);
            proof {
                crate::value::lemma_val_model_table(r->Table_0);
                assert(val_model(r)->Table_0 =~= sp_from_json(j0)->Table_0);
            }
            Ok(r)
        },
        JsonValue::Obj(pairs) => {
            let ghost j0 = jmodel(JsonValue::Obj(pairs));
            let ghost pm = obj_model(pairs@);
            let ghost pairs0 = pairs;
            let mut pairs = pairs;
            let mut out: Vec<LuaTableEntry<'static>> = Vec::new();
            proof {
                assert(j0->Obj_0 =~= pm);
                assert(pairs@ =~= pairs0@.skip(0));
            }
            while pairs.len() > 0
                invariant
                    value == JsonValue::Obj(pairs0),
                    pairs@ =~= pairs0@.skip(out@.len() as int),
                    pm.len() == pairs0@.len(),
                    out@.len() + pairs@.len() == pairs0@.len(),
                    pairs@.len() <= pm.len(),
                    out@.len() == pm.len() - pairs@.len(),
                    obj_model(pairs@) =~= pm.skip(out@.len() as int),
                    forall|t: int| 0 <= t < out@.len() ==> #[trigger] entry_model(out@[t]) == (
                    if crate::is_lua_identifier(encode_utf8(pm[t].0)) {
                        EntryModel::Named(encode_utf8(pm[t].0), sp_from_json(pm[t].1))
                    } else {
                        EntryModel::Keyed(
                            ValModel::Str(encode_utf8(pm[t].0)),
                            sp_from_json(pm[t].1),
                        )
                    }),
                decreases pairs@.len(),
            {
                let ghost done = out@.len() as int;
                let ghost before = obj_model(pairs@);
                proof {
                    assert(pairs0@.len() == done + pairs@.len());
                    assert(pairs@[0] == pairs0@[done]);
                }
                let kv = pairs.remove(0);
                proof {
                    broadcast use vstd::std_specs::vec::group_vec_axioms;

                    assert((kv.0@, jmodel(kv.1)) == before[0]);
                    assert(before[0] == pm[done]);
                    assert(obj_model(pairs@) =~= before.drop_first());
                    assert(before.drop_first() =~= pm.skip(done + 1));
                    assert(kv == pairs0@[done]);
                    assert(pairs@ =~= pairs0@.skip(done + 1));
                    assert(value->Obj_0 == pairs0);
                    assert(decreases_to!(value => value->Obj_0));
                    assert(decreases_to!(value => pairs0));
                    assert(decreases_to!(pairs0 => pairs0[done]));
                    assert(pairs0[done] == pairs0@[done]);
                    assert(decreases_to!(pairs0[done] => pairs0[done].1));
                }
                let key = LuaStr::Owned(crate::value::string_into_bytes(kv.0));
                match from_json_value(kv.1) {
                    Ok(v) => {
                        out.push(LuaTableEntry::from_bytes_key(key, v));
                    },
                    Err(_) => {
                        out.push(LuaTableEntry::NilValue);
                    },
                }
            }
            let r = LuaValue::Table(out);
            proof {
                crate::value::lemma_val_model_table(r->Table_0);
                assert(val_model(r)->Table_0 =~= sp_from_json(j0)->Table_0);
            }
            Ok(r)
        },
    }
}

} // verus!