//! General properties of the grammar, stated and proved against the
//! specification functions that the parser's contracts use.
#![allow(unused_imports)]
use vstd::prelude::*;
use crate::parse::{
    sp_value, sp_ws, sp_numeral, sp_string, sp_lit_at, nil_lit, true_lit, false_lit, SpRes,
    AbortKind, lemma_sp_ws,
};
use crate::value::ValModel;

verus! {

/// Skipping whitespace is idempotent.
pub proof fn lemma_sp_ws_idem(s: Seq<u8>, i: int)
    ensures
        sp_ws(s, sp_ws(s, i)) == sp_ws(s, i),
    decreases s.len() - i,
{
    if 0 <= i < s.len() && crate::parse::is_ws(s[i]) {
        lemma_sp_ws_idem(s, i + 1);
    }
}

/// Whitespace before a value does not change what it parses to: the
/// grammar consumes it either way.
pub proof fn lemma_value_ignores_leading_ws(s: Seq<u8>, i: int, d: nat)
    ensures
        sp_value(s, i, d) == sp_value(s, sp_ws(s, i), d),
{
    lemma_sp_ws_idem(s, i);
}

/// A scalar parse is depth-independent: whenever a value other than a
/// table is recognised under some budget, every budget, including
/// zero, recognises the same value at the same position.
pub proof fn lemma_depth_zero_accepts_scalars(s: Seq<u8>, i: int, d1: nat, d2: nat)
    requires
        sp_value(s, i, d1) matches SpRes::Found(v, p) && !(v is Table),
    ensures
        sp_value(s, i, d2) == sp_value(s, i, d1),
{
    let j = sp_ws(s, i);
    if sp_lit_at(s, j, nil_lit()) || sp_lit_at(s, j, true_lit()) || sp_lit_at(s, j, false_lit()) {
    } else {
        match sp_numeral(s, j) {
            Some(_) => {},
            None => {
                match sp_string(s, j) {
                    SpRes::Found(_, _) => {},
                    SpRes::Abort(_) => {},
                    SpRes::Fail => {
                        // Only the table alternative is left, and it can
                        // yield nothing but a table, a failure or an
                        // abort, against the hypothesis.
                        assert(false);
                    },
                }
            },
        }
    }
}

/// A depth budget of zero rejects every table, including the empty
/// one: whenever some budget parses a table here, budget zero stops
/// with the depth error.
pub proof fn lemma_depth_zero_rejects_tables(s: Seq<u8>, i: int, d: nat)
    requires
        sp_value(s, i, d) matches SpRes::Found(v, p) && (v is Table),
    ensures
        sp_value(s, i, 0) == SpRes::<ValModel>::Abort(AbortKind::Depth),
{
    let j = sp_ws(s, i);
    assert(!sp_lit_at(s, j, nil_lit()) && !sp_lit_at(s, j, true_lit()) && !sp_lit_at(
        s,
        j,
        false_lit(),
    ));
    assert(sp_numeral(s, j) is None);
    assert(sp_string(s, j) is Fail);
    assert(0 <= j < s.len() && s[j] == 123);
}

/// The value of a run of hexadecimal digits, unbounded.
pub open spec fn hex_run_val(ds: Seq<u8>, acc: int) -> int
    decreases ds.len(),
{
    if ds.len() == 0 {
        acc
    } else {
        hex_run_val(ds.drop_first(), acc * 16 + crate::floatbits::spec_hex_digit(ds[0]))
    }
}

/// The exact fold of the negative alternative: each digit is
/// subtracted instead of added.
pub open spec fn neg_run_val(ds: Seq<u8>, acc: int) -> int
    decreases ds.len(),
{
    if ds.len() == 0 {
        acc
    } else {
        neg_run_val(ds.drop_first(), acc * 16 - crate::floatbits::spec_hex_digit(ds[0]))
    }
}

/// The negative fold is the negated positive fold.
pub proof fn lemma_neg_run_val(ds: Seq<u8>, acc: int)
    ensures
        neg_run_val(ds, acc) == -hex_run_val(ds, -acc),
    decreases ds.len(),
{
    if ds.len() > 0 {
        let d = crate::floatbits::spec_hex_digit(ds[0]) as int;
        lemma_neg_run_val(ds.drop_first(), acc * 16 - d);
        assert(-(acc * 16 - d) == (-acc) * 16 + d);
    }
}

/// The signed 64-bit value whose bit pattern is `x` modulo 2^64: the
/// two's-complement reinterpretation.
pub open spec fn crop64(x: int) -> i64 {
    let r = x % 0x1_0000_0000_0000_0000;
    if r > i64::MAX {
        (r - 0x1_0000_0000_0000_0000) as i64
    } else {
        r as i64
    }
}

/// Exact folds that agree modulo 2^64 stay congruent as further
/// digits arrive.
#[verifier::rlimit(100)]
#[verifier::spinoff_prover]
proof fn lemma_hex_run_congruent(ds: Seq<u8>, a: int, b: int, neg: bool)
    requires
        a % 0x1_0000_0000_0000_0000 == b % 0x1_0000_0000_0000_0000,
    ensures
        !neg ==> hex_run_val(ds, a) % 0x1_0000_0000_0000_0000 == hex_run_val(ds, b)
            % 0x1_0000_0000_0000_0000,
        neg ==> neg_run_val(ds, a) % 0x1_0000_0000_0000_0000 == neg_run_val(ds, b)
            % 0x1_0000_0000_0000_0000,
    decreases ds.len(),
{
    if ds.len() > 0 {
        let m: int = 0x1_0000_0000_0000_0000;
        let d = crate::floatbits::spec_hex_digit(ds[0]) as int;
        assert((a * 16 + d) % m == (b * 16 + d) % m && (a * 16 - d) % m == (b * 16 - d) % m) by {
            vstd::arithmetic::div_mod::lemma_mul_mod_noop_right(a, 16, m);
            vstd::arithmetic::div_mod::lemma_mul_mod_noop_right(b, 16, m);
            vstd::arithmetic::div_mod::lemma_add_mod_noop(a * 16, d, m);
            vstd::arithmetic::div_mod::lemma_add_mod_noop(b * 16, d, m);
            vstd::arithmetic::div_mod::lemma_sub_mod_noop(a * 16, d, m);
            vstd::arithmetic::div_mod::lemma_sub_mod_noop(b * 16, d, m);
        }
        if neg {
            lemma_hex_run_congruent(ds.drop_first(), a * 16 - d, b * 16 - d, neg);
        } else {
            lemma_hex_run_congruent(ds.drop_first(), a * 16 + d, b * 16 + d, neg);
        }
    }
}

/// One wrapped accumulator step is congruent, modulo 2^64, to the
/// exact arithmetic step.
#[verifier::rlimit(100)]
#[verifier::spinoff_prover]
proof fn lemma_wrap_step_congruent(acc: i64, d: int, is_positive: bool)
    requires
        0 <= d < 16,
    ensures
        ({
            let m: int = 0x1_0000_0000_0000_0000;
            let scaled = vstd::wrapping::i64_specs::wrapping_mul(acc, 16);
            let next = if is_positive {
                vstd::wrapping::i64_specs::wrapping_add(scaled, d as i64)
            } else {
                vstd::wrapping::i64_specs::wrapping_sub(scaled, d as i64)
            };
            let exact_next: int = if is_positive {
                (acc as int) * 16 + d
            } else {
                (acc as int) * 16 - d
            };
            (next as int) % m == exact_next % m
        }),
{
    let m: int = 0x1_0000_0000_0000_0000;
    let scaled = vstd::wrapping::i64_specs::wrapping_mul(acc, 16);
    assert((scaled as int) % m == ((acc as int) * 16) % m) by {
        vstd::arithmetic::div_mod::lemma_mod_sub_multiples_vanish((acc as int) * 16, m);
        vstd::arithmetic::div_mod::lemma_mod_add_multiples_vanish((acc as int) * 16, m);
        vstd::arithmetic::div_mod::lemma_mod_twice((acc as int) * 16, m);
    }
    vstd::arithmetic::div_mod::lemma_add_mod_noop(scaled as int, d, m);
    vstd::arithmetic::div_mod::lemma_add_mod_noop((acc as int) * 16, d, m);
    vstd::arithmetic::div_mod::lemma_sub_mod_noop(scaled as int, d, m);
    vstd::arithmetic::div_mod::lemma_sub_mod_noop((acc as int) * 16, d, m);
    vstd::arithmetic::div_mod::lemma_mod_sub_multiples_vanish(scaled as int + d, m);
    vstd::arithmetic::div_mod::lemma_mod_add_multiples_vanish(scaled as int + d, m);
    vstd::arithmetic::div_mod::lemma_mod_sub_multiples_vanish(scaled as int - d, m);
    vstd::arithmetic::div_mod::lemma_mod_add_multiples_vanish(scaled as int - d, m);
    vstd::arithmetic::div_mod::lemma_mod_twice(scaled as int + d, m);
    vstd::arithmetic::div_mod::lemma_mod_twice(scaled as int - d, m);
}

/// The wrapping fold computes the exact fold, reduced modulo 2^64
/// and reinterpreted as a signed value.
#[verifier::rlimit(100)]
proof fn lemma_wrapping_fold_crop(ds: Seq<u8>, is_positive: bool, acc: i64)
    requires
        forall|t: int| 0 <= t < ds.len() ==> crate::floatbits::is_hex_digit(#[trigger] ds[t]),
    ensures
        crate::spec_wrapping_fold(ds, 16, is_positive, acc) == Some(
            crop64(
                if is_positive {
                    hex_run_val(ds, acc as int)
                } else {
                    neg_run_val(ds, acc as int)
                },
            ),
        ),
    decreases ds.len(),
{
    let m: int = 0x1_0000_0000_0000_0000;
    if ds.len() == 0 {
        assert(crop64(acc as int) == acc) by {
            if acc >= 0 {
                vstd::arithmetic::div_mod::lemma_small_mod(acc as nat, m as nat);
            } else {
                assert((acc as int) % m == acc + m) by {
                    vstd::arithmetic::div_mod::lemma_small_mod((acc + m) as nat, m as nat);
                    vstd::arithmetic::div_mod::lemma_mod_sub_multiples_vanish(acc + m, m);
                }
            }
        }
    } else {
        let d = crate::floatbits::spec_hex_digit(ds[0]) as int;
        assert(crate::floatbits::is_hex_digit(ds[0]));
        assert(crate::spec_digit_value(ds[0], 16) == Some(
            crate::floatbits::spec_hex_digit(ds[0]),
        ));
        let scaled = vstd::wrapping::i64_specs::wrapping_mul(acc, 16);
        let next = if is_positive {
            vstd::wrapping::i64_specs::wrapping_add(scaled, d as i64)
        } else {
            vstd::wrapping::i64_specs::wrapping_sub(scaled, d as i64)
        };
        assert(forall|t: int| 0 <= t < ds.drop_first().len() ==> crate::floatbits::is_hex_digit(
            #[trigger] ds.drop_first()[t],
        )) by {
            assert(forall|t: int| 0 <= t < ds.drop_first().len() ==> ds.drop_first()[t] == ds[t
                + 1]);
        }
        lemma_wrapping_fold_crop(ds.drop_first(), is_positive, next);
        // the wrapped step stays congruent to the exact step
        let exact_next: int = if is_positive {
            (acc as int) * 16 + d
        } else {
            (acc as int) * 16 - d
        };
        lemma_wrap_step_congruent(acc, d, is_positive);
        lemma_hex_run_congruent(ds.drop_first(), next as int, exact_next, !is_positive);
    }
}

/// The hexadecimal-integer law: the parsed integer is the value of
/// the digits accumulated modulo 2^64, negated modulo 2^64 under a
/// minus sign, and reinterpreted as a signed two's-complement value.
pub proof fn lemma_hex_wraparound(ds: Seq<u8>, is_positive: bool)
    requires
        forall|t: int| 0 <= t < ds.len() ==> crate::floatbits::is_hex_digit(#[trigger] ds[t]),
    ensures
        crate::spec_wrapping_parse_int(ds, 16, is_positive) == Some(
            crop64(
                if is_positive {
                    hex_run_val(ds, 0)
                } else {
                    -hex_run_val(ds, 0)
                },
            ),
        ),
{
    lemma_wrapping_fold_crop(ds, is_positive, 0);
    if !is_positive {
        lemma_neg_run_val(ds, 0);
    }
}

/// An empty input holds no value.
pub proof fn lemma_empty_input_rejected(d: nat)
    ensures
        sp_value(Seq::empty(), 0, d) is Fail,
{
    let s = Seq::<u8>::empty();
    assert(sp_ws(s, 0) == 0);
    assert(!sp_lit_at(s, 0, nil_lit()));
    assert(!sp_lit_at(s, 0, true_lit()));
    assert(!sp_lit_at(s, 0, false_lit()));
    assert(sp_numeral(s, 0) is None) by {
        assert(!sp_lit_at(s, 0, crate::parse::neg_inf_lit()));
        assert(!sp_lit_at(s, 0, crate::parse::inf_lit()));
        assert(!sp_lit_at(s, 0, crate::parse::nan_lit()));
        assert(crate::parse::sp_dec_end(s, 0) == 0);
    }
    assert(sp_string(s, 0) is Fail);
}

} // verus!
