//! The output formatter: re-emits a value tree as Lua source.
//!
//! Integers render in decimal; finite floating point values render as
//! hexadecimal float literals built from their bit pattern, with the
//! special cases `0x0p0`, `1e9999`, `-1e9999` and `(0/0)`.  Strings
//! are quoted with `"`, escaping the quote, the backslash and every
//! control byte.  A `name = value` entry whose name is not a valid
//! identifier is refused.
#![allow(unused_imports)]
use vstd::prelude::*;
use crate::number::{
    LuaNumber, F64_SIGN_BIT, F64_INF_BITS, F64_IMPLICIT_BIT, f64_abs_bits, f64_is_nan_bits,
    f64_is_finite_bits, pow2u64,
};
use crate::value::{LuaStr, LuaValue, LuaTableEntry, ValModel, EntryModel, val_model, entry_model};
use crate::parse::LuaError;
use crate::is_lua_identifier;

verus! {

/// The lower-case hexadecimal digit byte for `v`.
pub open spec fn hex_char(v: nat) -> u8 {
    if v < 10 {
        (48 + v) as u8
    } else {
        (87 + v) as u8
    }
}

/// The decimal digit bytes of `v`.
pub open spec fn sp_dec_nat(v: nat) -> Seq<u8>
    decreases v,
{
    if v < 10 {
        seq![(48 + v) as u8]
    } else {
        sp_dec_nat(v / 10) + seq![(48 + v % 10) as u8]
    }
}

/// The decimal rendering of a signed integer.
pub open spec fn sp_dec_int(v: int) -> Seq<u8> {
    if v < 0 {
        seq![45u8] + sp_dec_nat((-v) as nat)
    } else {
        sp_dec_nat(v as nat)
    }
}

/// Writes the decimal digits of `v` to `out`.
pub fn push_dec_u64(out: &mut Vec<u8>, v: u64)
    ensures
        final(out)@ == old(out)@ + sp_dec_nat(v as nat),
    decreases v,
{
    if v < 10 {
        out.push(48 + v as u8);
        proof {
            assert(old(out)@ + sp_dec_nat(v as nat) =~= old(out)@.push((48 + v) as u8));
        }
    } else {
        push_dec_u64(out, v / 10);
        out.push(48 + (v % 10) as u8);
        proof {
            assert(old(out)@ + sp_dec_nat(v as nat) =~= (old(out)@ + sp_dec_nat(
                (v / 10) as nat,
            )).push((48 + v % 10) as u8));
        }
    }
}

/// Writes the decimal rendering of `v` to `out`.
pub fn push_dec_i64(out: &mut Vec<u8>, v: i64)
    ensures
        final(out)@ == old(out)@ + sp_dec_int(v as int),
{
    if v < 0 {
        out.push(45);
        let ghost mid = out@;
        let m: u64 = if v == i64::MIN {
            0x8000_0000_0000_0000u64
        } else {
            (0 - v) as u64
        };
        push_dec_u64(out, m);
        proof {
            assert(out@ =~= old(out)@ + sp_dec_int(v as int));
        }
    } else {
        push_dec_u64(out, v as u64);
    }
}

/// The big-endian hexadecimal digits of `v`, `w` nibbles wide.
pub open spec fn sp_hex_width(v: nat, w: nat) -> Seq<u8>
    decreases w,
{
    if w == 0 {
        Seq::empty()
    } else {
        sp_hex_width(v / 16, (w - 1) as nat) + seq![hex_char(v % 16)]
    }
}

/// `digits` with trailing zero digits removed, keeping at least one.
pub open spec fn sp_trim_zeros(digits: Seq<u8>) -> Seq<u8>
    decreases digits.len(),
{
    if digits.len() > 1 && digits[digits.len() - 1] == 48 {
        sp_trim_zeros(digits.drop_last())
    } else {
        digits
    }
}

/// The hexadecimal float rendering of a finite, non-zero magnitude
/// bit pattern `b` (sign bit clear): `0x1.<mantissa>p<exp>` for a
/// normal value, `0x0.<mantissa>p-1022` for a subnormal one, with
/// trailing zero digits of the mantissa removed.
pub open spec fn sp_hex_float(b: nat) -> Seq<u8> {
    let eb = b / 0x10_0000_0000_0000;
    let mant = b % 0x10_0000_0000_0000;
    let lead: u8 = if eb >= 1 {
        49
    } else {
        48
    };
    let e: int = if eb >= 1 {
        eb - 1023
    } else {
        -1022
    };
    seq![48u8, 120u8, lead, 46u8] + sp_trim_zeros(sp_hex_width(mant, 13)) + seq![112u8]
        + sp_dec_int(e)
}

/// The rendering of a number: base-10 for an integer; for a float
/// the zero, infinity and NaN special forms, else the hexadecimal
/// float form with a sign.
pub open spec fn sp_format_num(n: LuaNumber) -> Seq<u8> {
    match n {
        LuaNumber::Integer(v) => sp_dec_int(v as int),
        LuaNumber::Float(b) => {
            let a = f64_abs_bits(b);
            if f64_is_nan_bits(b) {
                seq![40u8, 48u8, 47u8, 48u8, 41u8]  // (0/0)
            } else if a == F64_INF_BITS {
                if b >= F64_SIGN_BIT {
                    seq![45u8, 49u8, 101u8, 57u8, 57u8, 57u8, 57u8]  // -1e9999
                } else {
                    seq![49u8, 101u8, 57u8, 57u8, 57u8, 57u8]  // 1e9999
                }
            } else if a == 0 {
                seq![48u8, 120u8, 48u8, 112u8, 48u8]  // 0x0p0
            } else if b >= F64_SIGN_BIT {
                seq![45u8] + sp_hex_float(a as nat)
            } else {
                sp_hex_float(a as nat)
            }
        },
    }
}

/// Writes the hexadecimal float rendering of magnitude `a`.
fn push_hex_float(out: &mut Vec<u8>, a: u64)
    requires
        0 < a < F64_INF_BITS,
    ensures
        final(out)@ == old(out)@ + sp_hex_float(a as nat),
{
    let eb: u64 = a / 0x10_0000_0000_0000;
    let mant: u64 = a % 0x10_0000_0000_0000;
    out.push(48);
    out.push(120);
    if eb >= 1 {
        out.push(49);
    } else {
        out.push(48);
    }
    out.push(46);
    let ghost pre = out@;
    // the 13 mantissa digits, with trailing zeros trimmed
    let mut w: usize = 13;
    let mut rest: u64 = mant;
    let mut tail: Vec<u8> = Vec::new();
    while w > 0
        invariant
            0 <= w <= 13,
            tail@.len() == 13 - w,
            sp_hex_width(mant as nat, 13) == sp_hex_width(rest as nat, w as nat) + tail@,
        decreases w,
    {
        let d: u8 = if (rest % 16) < 10 {
            48 + (rest % 16) as u8
        } else {
            87 + (rest % 16) as u8
        };
        proof {
            assert(d == hex_char(rest as nat % 16));
            assert(sp_hex_width(rest as nat, w as nat) =~= sp_hex_width(
                (rest / 16) as nat,
                (w - 1) as nat,
            ) + seq![hex_char(rest as nat % 16)]);
            assert((sp_hex_width((rest / 16) as nat, (w - 1) as nat) + seq![
                hex_char(rest as nat % 16),
            ]) + tail@ =~= sp_hex_width((rest / 16) as nat, (w - 1) as nat) + (seq![
                hex_char(rest as nat % 16),
            ] + tail@));
        }
        let ghost prev_tail = tail@;
        tail.insert(0, d);
        proof {
            assert(tail@ =~= seq![d] + prev_tail);
        }
        rest = rest / 16;
        w = w - 1;
    }
    proof {
        assert(sp_hex_width(rest as nat, 0) =~= Seq::<u8>::empty());
        assert(Seq::<u8>::empty() + tail@ =~= tail@);
        assert(tail@ == sp_hex_width(mant as nat, 13));
    }
    // trim trailing zeros, keeping at least one digit
    let mut keep: usize = tail.len();
    proof {
        assert(tail@.take(keep as int) =~= tail@);
    }
    while keep > 1 && tail[keep - 1] == 48
        invariant
            1 <= keep <= tail@.len(),
            tail@.len() == 13,
            sp_trim_zeros(tail@) == sp_trim_zeros(tail@.take(keep as int)),
        decreases keep,
    {
        proof {
            assert(tail@.take(keep as int).drop_last() =~= tail@.take(keep as int - 1));
            assert(tail@.take(keep as int)[keep - 1] == tail@[keep - 1]);
        }
        keep = keep - 1;
    }
    proof {
        let kept = tail@.take(keep as int);
        if keep > 1 {
            assert(kept[kept.len() - 1] == tail@[keep - 1]);
        }
        assert(sp_trim_zeros(kept) == kept);
    }
    let mut t: usize = 0;
    while t < keep
        invariant
            0 <= t <= keep <= tail@.len(),
            out@ == pre + tail@.take(t as int),
        decreases keep - t,
    {
        out.push(tail[t]);
        proof {
            assert(pre + tail@.take(t as int + 1) =~= (pre + tail@.take(t as int)).push(
                tail@[t as int],
            ));
        }
        t += 1;
    }
    out.push(112);
    let e: i64 = if eb >= 1 {
        eb as i64 - 1023
    } else {
        -1022
    };
    let ghost pre2 = out@;
    push_dec_i64(out, e);
    proof {
        assert(out@ =~= old(out)@ + sp_hex_float(a as nat));
    }
}

/// Writes the rendering of a number.
pub fn push_number(out: &mut Vec<u8>, n: LuaNumber)
    ensures
        final(out)@ == old(out)@ + sp_format_num(n),
{
    match n {
        LuaNumber::Integer(v) => {
            push_dec_i64(out, v);
        },
        LuaNumber::Float(b) => {
            let a: u64 = if b >= F64_SIGN_BIT {
                b - F64_SIGN_BIT
            } else {
                b
            };
            if a > F64_INF_BITS {
                out.push(40);
                out.push(48);
                out.push(47);
                out.push(48);
                out.push(41);
                proof {
                    assert(out@ =~= old(out)@ + sp_format_num(n));
                }
            } else if a == F64_INF_BITS {
                if b >= F64_SIGN_BIT {
                    out.push(45);
                }
                out.push(49);
                out.push(101);
                out.push(57);
                out.push(57);
                out.push(57);
                out.push(57);
                proof {
                    assert(out@ =~= old(out)@ + sp_format_num(n));
                }
            } else if a == 0 {
                out.push(48);
                out.push(120);
                out.push(48);
                out.push(112);
                out.push(48);
                proof {
                    assert(out@ =~= old(out)@ + sp_format_num(n));
                }
            } else {
                if b >= F64_SIGN_BIT {
                    out.push(45);
                }
                push_hex_float(out, a);
                proof {
                    assert(out@ =~= old(out)@ + sp_format_num(n));
                }
            }
        },
    }
}

/// The escape of one string byte: the named escapes for the bytes
/// they stand for, `\xHH` for other control bytes, `\"` and `\\` for
/// the quote and the backslash, and the byte itself otherwise.
pub open spec fn sp_escape_byte(b: u8) -> Seq<u8> {
    if b == 34 {
        seq![92u8, 34u8]
    } else if b == 92 {
        seq![92u8, 92u8]
    } else if b == 7 {
        seq![92u8, 97u8]
    } else if b == 8 {
        seq![92u8, 98u8]
    } else if b == 9 {
        seq![92u8, 116u8]
    } else if b == 10 {
        seq![92u8, 110u8]
    } else if b == 11 {
        seq![92u8, 118u8]
    } else if b == 12 {
        seq![92u8, 102u8]
    } else if b == 13 {
        seq![92u8, 114u8]
    } else if b < 32 {
        seq![92u8, 120u8, hex_char((b / 16) as nat), hex_char((b % 16) as nat)]
    } else {
        seq![b]
    }
}

/// The escaped form of a byte string's contents.
pub open spec fn sp_escape_bytes(bs: Seq<u8>) -> Seq<u8>
    decreases bs.len(),
{
    if bs.len() == 0 {
        Seq::empty()
    } else {
        sp_escape_byte(bs[0]) + sp_escape_bytes(bs.drop_first())
    }
}

/// The rendering of a string: quoted and escaped.
pub open spec fn sp_format_str(bs: Seq<u8>) -> Seq<u8> {
    seq![34u8] + sp_escape_bytes(bs) + seq![34u8]
}

/// True when every `name = value` entry of the tree carries a valid
/// identifier; only such trees can be emitted.
pub open spec fn sp_fmt_ok_val(m: ValModel) -> bool
    decreases m,
    via sp_fmt_ok_val_dec
{
    match m {
        ValModel::Table(es) => forall|i: int|
            0 <= i < es.len() ==> sp_fmt_ok_entry(#[trigger] es[i]),
        _ => true,
    }
}

#[via_fn]
proof fn sp_fmt_ok_val_dec(m: ValModel) {
    broadcast use vstd::seq::group_seq_axioms;

    if let ValModel::Table(es) = m {
        assert forall|i: int| 0 <= i < es.len() implies decreases_to!(m => es[i]) by {
            assert(decreases_to!(m => es));
            assert(decreases_to!(es => es[i]));
        }
    }
}

/// True when an entry and everything under it can be emitted.
pub open spec fn sp_fmt_ok_entry(e: EntryModel) -> bool
    decreases e,
{
    match e {
        EntryModel::Keyed(k, v) => sp_fmt_ok_val(k) && sp_fmt_ok_val(v),
        EntryModel::Named(nm, v) => is_lua_identifier(nm) && sp_fmt_ok_val(v),
        EntryModel::Positional(v) => sp_fmt_ok_val(v),
    }
}

/// The rendering of a value tree.
pub open spec fn sp_format_val(m: ValModel) -> Seq<u8>
    decreases m, 1int,
    via sp_format_val_dec
{
    match m {
        ValModel::Nil => seq![110u8, 105u8, 108u8],
        ValModel::Bool(b) => if b {
            seq![116u8, 114u8, 117u8, 101u8]
        } else {
            seq![102u8, 97u8, 108u8, 115u8, 101u8]
        },
        ValModel::Num(n) => sp_format_num(n),
        ValModel::Str(bs) => sp_format_str(bs),
        ValModel::Table(es) => seq![123u8] + sp_format_entries(es) + seq![125u8],
    }
}

#[via_fn]
proof fn sp_format_val_dec(m: ValModel) {
    if let ValModel::Table(es) = m {
        assert(decreases_to!(m => es));
    }
}

/// The rendering of an entry list: entries joined by `,`.
pub open spec fn sp_format_entries(es: Seq<EntryModel>) -> Seq<u8>
    decreases es, 0int,
    via sp_format_entries_dec
{
    if es.len() == 0 {
        Seq::empty()
    } else {
        sp_format_entry(es[0]) + sp_format_more(es.drop_first())
    }
}

#[via_fn]
proof fn sp_format_entries_dec(es: Seq<EntryModel>) {
    broadcast use vstd::seq::group_seq_axioms;

    if es.len() > 0 {
        assert(decreases_to!(es => es[0]));
        assert(decreases_to!(es => es.drop_first()));
    }
}

/// The rendering of the entries after the first: each preceded by a
/// `,` separator.
pub open spec fn sp_format_more(es: Seq<EntryModel>) -> Seq<u8>
    decreases es, 0int,
    via sp_format_more_dec
{
    if es.len() == 0 {
        Seq::empty()
    } else {
        seq![44u8] + sp_format_entry(es[0]) + sp_format_more(es.drop_first())
    }
}

#[via_fn]
proof fn sp_format_more_dec(es: Seq<EntryModel>) {
    broadcast use vstd::seq::group_seq_axioms;

    if es.len() > 0 {
        assert(decreases_to!(es => es[0]));
        assert(decreases_to!(es => es.drop_first()));
    }
}

/// The rendering of one entry: the bare identifier or the bracketed
/// key with `=`, then the value.
pub open spec fn sp_format_entry(e: EntryModel) -> Seq<u8>
    decreases e, 1int,
{
    match e {
        EntryModel::Named(nm, v) => nm + seq![61u8] + sp_format_val(v),
        EntryModel::Keyed(k, v) => seq![91u8] + sp_format_val(k) + seq![93u8, 61u8]
            + sp_format_val(v),
        EntryModel::Positional(v) => sp_format_val(v),
    }
}

/// Writes the escaped contents of a byte string.
fn push_escaped(out: &mut Vec<u8>, bs: &[u8])
    ensures
        final(out)@ == old(out)@ + sp_escape_bytes(bs@),
{
    let n: usize = bs.len();
    let mut i: usize = 0;
    proof {
        assert(bs@.skip(0) =~= bs@);
        assert(old(out)@ + Seq::<u8>::empty() =~= old(out)@);
    }
    while i < n
        invariant
            0 <= i <= n,
            n == bs@.len(),
            old(out)@ + sp_escape_bytes(bs@) == out@ + sp_escape_bytes(bs@.skip(i as int)),
        decreases n - i,
    {
        let b: u8 = bs[i];
        proof {
            assert(bs@.skip(i as int)[0] == b);
            assert(bs@.skip(i as int).drop_first() =~= bs@.skip(i as int + 1));
        }
        let ghost mid = out@;
        if b == 34 {
            out.push(92);
            out.push(34);
        } else if b == 92 {
            out.push(92);
            out.push(92);
        } else if b == 7 {
            out.push(92);
            out.push(97);
        } else if b == 8 {
            out.push(92);
            out.push(98);
        } else if b == 9 {
            out.push(92);
            out.push(116);
        } else if b == 10 {
            out.push(92);
            out.push(110);
        } else if b == 11 {
            out.push(92);
            out.push(118);
        } else if b == 12 {
            out.push(92);
            out.push(102);
        } else if b == 13 {
            out.push(92);
            out.push(114);
        } else if b < 32 {
            out.push(92);
            out.push(120);
            let hi: u8 = b / 16;
            let lo: u8 = b % 16;
            out.push(
                if hi < 10 {
                    48 + hi
                } else {
                    87 + hi
                },
            );
            out.push(
                if lo < 10 {
                    48 + lo
                } else {
                    87 + lo
                },
            );
        } else {
            out.push(b);
        }
        proof {
            assert(out@ =~= mid + sp_escape_byte(b));
            assert(mid + (sp_escape_byte(b) + sp_escape_bytes(bs@.skip(i as int + 1))) =~= (mid
                + sp_escape_byte(b)) + sp_escape_bytes(bs@.skip(i as int + 1)));
        }
        i += 1;
    }
    proof {
        assert(sp_escape_bytes(bs@.skip(n as int)) =~= Seq::<u8>::empty());
        assert(out@ + Seq::<u8>::empty() =~= out@);
    }
}

/// Writes the rendering of a value; refuses a tree holding a
/// `name = value` entry whose name is not a valid identifier.
pub fn push_value(out: &mut Vec<u8>, v: &LuaValue) -> (r: Result<(), LuaError>)
    ensures
        r is Ok <==> sp_fmt_ok_val(v@),
        r is Ok ==> final(out)@ == old(out)@ + sp_format_val(v@),
        r matches Err(e) ==> e is InvalidIdentifier,
    decreases *v, 1int,
{
    match v {
        LuaValue::Nil => {
            out.push(110);
            out.push(105);
            out.push(108);
            proof {
                assert(out@ =~= old(out)@ + sp_format_val(v@));
            }
            Ok(())
        },
        LuaValue::Boolean(b) => {
            if *b {
                out.push(116);
                out.push(114);
                out.push(117);
                out.push(101);
            } else {
                out.push(102);
                out.push(97);
                out.push(108);
                out.push(115);
                out.push(101);
            }
            proof {
                assert(out@ =~= old(out)@ + sp_format_val(v@));
            }
            Ok(())
        },
        LuaValue::Number(n) => {
            push_number(out, *n);
            Ok(())
        },
        LuaValue::String(s) => {
            out.push(34);
            push_escaped(out, s.as_bytes());
            out.push(34);
            proof {
                assert(out@ =~= old(out)@ + sp_format_val(v@));
            }
            Ok(())
        },
        LuaValue::Table(ts) => {
            proof {
                broadcast use vstd::std_specs::vec::group_vec_axioms;

                assert(decreases_to!(*v => *ts));
            }
            out.push(123);
            let r = push_entries(out, ts);
            match r {
                Ok(()) => {
                    out.push(125);
                    proof {
                        crate::value::lemma_val_model_table(*ts);
                        let es = val_model(*v)->Table_0;
                        assert(es == crate::value::ents_model(ts@));
                        assert forall|jj: int| 0 <= jj < es.len() implies #[trigger] es[jj]
                            == entry_model(ts@[jj]) by {
                        }
                        assert(sp_fmt_ok_val(v@));
                        assert(out@ =~= old(out)@ + sp_format_val(v@));
                    }
                    Ok(())
                },
                Err(e) => {
                    proof {
                        crate::value::lemma_val_model_table(*ts);
                        let es = val_model(*v)->Table_0;
                        assert(es == crate::value::ents_model(ts@));
                        assert forall|jj: int| 0 <= jj < es.len() implies #[trigger] es[jj]
                            == entry_model(ts@[jj]) by {
                        }
                        assert(!sp_fmt_ok_val(v@)) by {
                            let bad = choose|jj: int|
                                0 <= jj < ts@.len() && !sp_fmt_ok_entry(
                                    #[trigger] entry_model(ts@[jj]),
                                );
                            assert(!sp_fmt_ok_entry(es[bad]));
                        }
                    }
                    Err(e)
                },
            }
        },
    }
}

/// Writes an entry list joined by `,`.
fn push_entries(out: &mut Vec<u8>, ts: &Vec<LuaTableEntry>) -> (r: Result<(), LuaError>)
    ensures
        r is Ok <==> (forall|i: int|
            0 <= i < ts@.len() ==> sp_fmt_ok_entry(#[trigger] entry_model(ts@[i]))),
        r is Ok ==> final(out)@ == old(out)@ + sp_format_entries(crate::value::ents_model(ts@)),
        r matches Err(e) ==> e is InvalidIdentifier,
    decreases *ts, 2int,
{
    let n: usize = ts.len();
    let ghost es = crate::value::ents_model(ts@);
    if n == 0 {
        proof {
            assert(sp_format_entries(es) =~= Seq::<u8>::empty());
            assert(out@ + Seq::<u8>::empty() =~= out@);
        }
        return Ok(());
    }
    proof {
        broadcast use vstd::std_specs::vec::group_vec_axioms;

        assert(decreases_to!(*ts => (*ts)[0]));
    }
    match push_entry(out, &ts[0]) {
        Err(e) => {
            return Err(e);
        },
        Ok(()) => {},
    }
    let mut i: usize = 1;
    proof {
        assert(es.drop_first() =~= es.skip(1));
        assert(old(out)@ + (sp_format_entry(es[0]) + sp_format_more(es.skip(1))) =~= (old(out)@
            + sp_format_entry(es[0])) + sp_format_more(es.skip(1)));
    }
    while i < n
        invariant
            1 <= i <= n,
            n == ts@.len(),
            es == crate::value::ents_model(ts@),
            forall|jj: int| 0 <= jj < i ==> sp_fmt_ok_entry(#[trigger] entry_model(ts@[jj])),
            old(out)@ + sp_format_entries(es) == out@ + sp_format_more(es.skip(i as int)),
        decreases n - i,
    {
        proof {
            broadcast use vstd::std_specs::vec::group_vec_axioms;

            assert(decreases_to!(*ts => (*ts)[i as int]));
            assert(es.skip(i as int)[0] == es[i as int]);
            assert(es.skip(i as int).drop_first() =~= es.skip(i as int + 1));
        }
        out.push(44);
        let ghost mid = out@;
        match push_entry(out, &ts[i]) {
            Err(e) => {
                return Err(e);
            },
            Ok(()) => {},
        }
        proof {
            assert(out@ =~= mid + sp_format_entry(es[i as int]));
            assert((mid.drop_last() + (seq![44u8] + sp_format_entry(es[i as int])
                + sp_format_more(es.skip(i as int + 1)))) =~= (mid + sp_format_entry(
                es[i as int],
            )) + sp_format_more(es.skip(i as int + 1)));
        }
        i += 1;
    }
    proof {
        assert(sp_format_more(es.skip(n as int)) =~= Seq::<u8>::empty());
        assert(out@ + Seq::<u8>::empty() =~= out@);
    }
    Ok(())
}

/// Writes one entry.
fn push_entry(out: &mut Vec<u8>, e: &LuaTableEntry) -> (r: Result<(), LuaError>)
    ensures
        r is Ok <==> sp_fmt_ok_entry(e@),
        r is Ok ==> final(out)@ == old(out)@ + sp_format_entry(e@),
        r matches Err(err) ==> err is InvalidIdentifier,
    decreases *e, 3int,
{
    match e {
        LuaTableEntry::NilValue => {
            out.push(110);
            out.push(105);
            out.push(108);
            proof {
                assert(out@ =~= old(out)@ + sp_format_entry(e@));
            }
            Ok(())
        },
        LuaTableEntry::BooleanValue(b) => {
            if *b {
                out.push(116);
                out.push(114);
                out.push(117);
                out.push(101);
            } else {
                out.push(102);
                out.push(97);
                out.push(108);
                out.push(115);
                out.push(101);
            }
            proof {
                assert(out@ =~= old(out)@ + sp_format_entry(e@));
            }
            Ok(())
        },
        LuaTableEntry::NumberValue(n) => {
            push_number(out, *n);
            Ok(())
        },
        LuaTableEntry::Value(v) => push_value(out, v),
        LuaTableEntry::NameValue(nm, v) => {
            if !crate::valid_lua_identifier(nm.as_bytes()) {
                return Err(LuaError::InvalidIdentifier);
            }
            let nm_len = nm.len();
            crate::parse::push_range(out, nm.as_bytes(), 0, nm_len);
            proof {
                assert(nm@.subrange(0, nm@.len() as int) =~= nm@);
            }
            out.push(61);
            let ghost mid = out@;
            match push_value(out, v) {
                Ok(()) => {
                    proof {
                        assert(out@ =~= old(out)@ + sp_format_entry(e@));
                    }
                    Ok(())
                },
                Err(err) => Err(err),
            }
        },
        LuaTableEntry::KeyValue(k, v) => {
            out.push(91);
            let ghost mid1 = out@;
            match push_value(out, k) {
                Err(err) => {
                    return Err(err);
                },
                Ok(()) => {},
            }
            out.push(93);
            out.push(61);
            let ghost mid2 = out@;
            match push_value(out, v) {
                Ok(()) => {
                    proof {
                        assert(out@ =~= old(out)@ + sp_format_entry(e@));
                    }
                    Ok(())
                },
                Err(err) => Err(err),
            }
        },
    }
}

/// Renders a value tree as Lua source.
pub fn value_to_lua(v: &LuaValue) -> (r: Result<Vec<u8>, LuaError>)
    ensures
        r is Ok <==> sp_fmt_ok_val(v@),
        r matches Ok(out) ==> out@ == sp_format_val(v@),
        r matches Err(e) ==> e is InvalidIdentifier,
{
    let mut out: Vec<u8> = Vec::new();
    match push_value(&mut out, v) {
        Ok(()) => {
            proof {
                assert(Seq::<u8>::empty() + sp_format_val(v@) =~= sp_format_val(v@));
            }
            Ok(out)
        },
        Err(e) => Err(e),
    }
}


/// The plain, separator-free output style; the only style the
/// formatter offers.
#[derive(Clone, Copy, Debug, PartialEq, Eq, Structural)]
pub struct CompactFormatter;

/// A byte escape code, in a type-safe form.
#[derive(Clone, Copy, Debug, PartialEq, Eq, Structural)]
pub enum ByteEscape {
    /// An escaped quote.
    Quote,
    /// An escaped backslash.
    ReverseSolidus,
    /// An escaped bell.
    Bell,
    /// An escaped backspace.
    Backspace,
    /// An escaped form feed.
    FormFeed,
    /// An escaped line feed.
    LineFeed,
    /// An escaped carriage return.
    CarriageReturn,
    /// An escaped horizontal tab.
    HorizontalTab,
    /// An escaped vertical tab.
    VerticalTab,
    /// Any other control byte, escaped in `\xHH` form.
    AsciiControl(u8),
}

/// The escape code for a byte the formatter cannot emit verbatim.
pub fn byte_escape_for(b: u8) -> (r: Option<ByteEscape>)
    ensures
        r is Some <==> (b == 34 || b == 92 || b < 32),
        r is None ==> sp_escape_byte(b) == seq![b],
{
    if b == 34 {
        Some(ByteEscape::Quote)
    } else if b == 92 {
        Some(ByteEscape::ReverseSolidus)
    } else if b == 7 {
        Some(ByteEscape::Bell)
    } else if b == 8 {
        Some(ByteEscape::Backspace)
    } else if b == 12 {
        Some(ByteEscape::FormFeed)
    } else if b == 10 {
        Some(ByteEscape::LineFeed)
    } else if b == 13 {
        Some(ByteEscape::CarriageReturn)
    } else if b == 9 {
        Some(ByteEscape::HorizontalTab)
    } else if b == 11 {
        Some(ByteEscape::VerticalTab)
    } else if b < 32 {
        Some(ByteEscape::AsciiControl(b))
    } else {
        None
    }
}

} // verus!
