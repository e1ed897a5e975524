//! Conversion of hexadecimal floating point literals to IEEE-754
//! binary64 bit patterns, in exact integer arithmetic.
//!
//! A hexadecimal literal denotes the dyadic rational `M * 2^E`, where
//! `M` is the value of all its hex digits and `E` combines the binary
//! exponent with the radix-point position.  Digits are folded left to
//! right into a 64-bit significand; once the significand has reached
//! 2^60, further digits only widen the scale and set a sticky flag,
//! which is how round-to-nearest-even sees them.  The rounding itself
//! — normal, subnormal, overflow to infinity, underflow to zero — is
//! carried out on the folded triple.
#![allow(unused_imports)]
use vstd::prelude::*;
use vstd::arithmetic::power2::{
    pow2, lemma_pow2_unfold, lemma_pow2_pos, lemma_pow2_adds, lemma2_to64, lemma2_to64_rest,
    lemma_pow2_strictly_increases, lemma_pow2_subtracts,
};
use vstd::arithmetic::div_mod::{
    lemma_fundamental_div_mod, lemma_fundamental_div_mod_converse, lemma_div_is_ordered,
};
use crate::number::{
    pow2u64, floor_log2, lemma_floor_log2, F64_SIGN_BIT, F64_INF_BITS, F64_IMPLICIT_BIT,
};

verus! {

/// Value of an ASCII hexadecimal digit byte, or 16 for any other byte.
pub open spec fn spec_hex_digit(c: u8) -> u32 {
    if 48 <= c && c <= 57 {  // 0-9
        (c - 48) as u32
    } else if 97 <= c && c <= 102 {  // a-f
        (c - 97 + 10) as u32
    } else if 65 <= c && c <= 70 {  // A-F
        (c - 65 + 10) as u32
    } else {
        16
    }
}

/// True when `c` is an ASCII hexadecimal digit.
pub open spec fn is_hex_digit(c: u8) -> bool {
    spec_hex_digit(c) < 16
}

/// True when `c` is an ASCII decimal digit.
pub open spec fn is_dec_digit(c: u8) -> bool {
    48 <= c && c <= 57
}

/// A significand folded from a digit stream: a 64-bit value, the
/// number of bits the remaining digits would have occupied, and a
/// sticky flag recording whether any dropped digit was non-zero.
pub struct FoldedSig {
    /// The leading digits, as an integer below 2^64.
    pub sig: u64,
    /// How many low-order bits were dropped; the digits represented
    /// `sig * 2^shift + delta` with `0 <= delta < 2^shift`.
    pub shift: u128,
    /// Whether the dropped `delta` was non-zero.
    pub sticky: bool,
}

/// Folds one hexadecimal digit into a significand: digits accumulate
/// until the significand reaches 2^60; after that each digit widens
/// the scale by four bits and feeds the sticky flag.
pub open spec fn spec_fold_hex_digit(acc: (nat, nat, bool), d: nat) -> (nat, nat, bool) {
    if acc.0 < 0x1000_0000_0000_0000 {  // 2^60
        (acc.0 * 16 + d, acc.1, acc.2)
    } else {
        (acc.0, acc.1 + 4, acc.2 || d != 0)
    }
}

/// Folds a sequence of hexadecimal digit bytes, left to right.
pub open spec fn spec_fold_hex(ds: Seq<u8>, acc: (nat, nat, bool)) -> (nat, nat, bool)
    decreases ds.len(),
{
    if ds.len() == 0 {
        acc
    } else {
        spec_fold_hex(ds.drop_first(), spec_fold_hex_digit(acc, spec_hex_digit(ds[0]) as nat))
    }
}

/// Round-to-nearest-even division of `m` by `2^k`, where a set sticky
/// flag means the dividend is really `m` plus a positive amount below
/// one.
pub open spec fn rhe_div(m: nat, k: nat, sticky: bool) -> nat {
    if k == 0 {
        m
    } else {
        let q = m / pow2(k);
        let r = m % pow2(k);
        let half = pow2((k - 1) as nat);
        if r > half {
            q + 1
        } else if r == half {
            if sticky {
                q + 1
            } else if q % 2 == 1 {
                q + 1
            } else {
                q
            }
        } else {
            q
        }
    }
}

/// The binary64 bit pattern (sign bit clear) closest to
/// `sig * 2^e + epsilon`, where `epsilon` is zero when `sticky` is
/// false and otherwise some positive amount below `2^e`; ties go to
/// the even significand.  Overflow yields the infinity pattern,
/// underflow the zero pattern.
pub open spec fn dyadic_to_bits(sig: nat, e: int, sticky: bool) -> u64 {
    let fl = floor_log2(sig) as int;
    let l = fl + e;
    if l >= -1022 {
        // normal range: round to 52 fractional bits
        let q = if fl >= 52 {
            rhe_div(sig, (fl - 52) as nat, sticky)
        } else {
            sig * pow2((52 - fl) as nat)
        };
        let l2 = if q == pow2(53) {
            l + 1
        } else {
            l
        };
        let q2: nat = if q == pow2(53) {
            pow2(52)
        } else {
            q
        };
        if l2 > 1023 {
            F64_INF_BITS
        } else {
            (((l2 + 1023) * pow2(52) + (q2 - pow2(52))) as nat) as u64
        }
    } else {
        // subnormal range: round to a multiple of 2^-1074
        let k = -1074 - e;
        let q = if k >= 0 {
            rhe_div(sig, k as nat, sticky)
        } else {
            sig * pow2((-k) as nat)
        };
        q as u64
    }
}

/// The bit pattern with the sign applied.
pub open spec fn spec_apply_sign(b: u64, neg: bool) -> u64 {
    if neg {
        (b + F64_SIGN_BIT) as u64
    } else {
        b
    }
}

/// The binary64 bit pattern denoted by a hexadecimal floating point
/// literal with integer-part digits `ids`, fractional-part digits
/// `fds`, binary exponent `e`, and sign `neg`.
pub open spec fn spec_hex_float_bits(ids: Seq<u8>, fds: Seq<u8>, e: int, neg: bool) -> u64 {
    let folded = spec_fold_hex(ids + fds, (0, 0, false));
    if folded.0 == 0 {
        spec_apply_sign(0, neg)
    } else {
        spec_apply_sign(
            dyadic_to_bits(folded.0, e - 4 * fds.len() + folded.1, folded.2),
            neg,
        )
    }
}

/// Applies the sign to a magnitude bit pattern.
pub fn apply_sign(b: u64, neg: bool) -> (r: u64)
    requires
        b < F64_SIGN_BIT,
    ensures
        r == spec_apply_sign(b, neg),
{
    if neg {
        b + F64_SIGN_BIT
    } else {
        b
    }
}

/// Round-to-nearest-even division of `m` by `2^k` for `k` up to 63.
fn rhe_div_u64(m: u64, k: u32, sticky: bool) -> (r: u64)
    requires
        k <= 63,
    ensures
        r == rhe_div(m as nat, k as nat, sticky),
        r <= m,
        m as nat / pow2(k as nat) <= r <= m as nat / pow2(k as nat) + 1,
{
    proof {
        if k == 0 {
            lemma2_to64();
            vstd::arithmetic::div_mod::lemma_div_basics(m as int);
        }
    }
    if k == 0 {
        return m;
    }
    let p: u64 = pow2u64(k);
    let half: u64 = pow2u64(k - 1);
    proof {
        lemma_pow2_unfold(k as nat);
        lemma_pow2_pos((k - 1) as nat);
        assert(p == 2 * half);
    }
    let q: u64 = m / p;
    let r: u64 = m % p;
    proof {
        vstd::arithmetic::div_mod::lemma_div_is_ordered_by_denominator(m as int, 2, p as int);
        assert(m as int / p as int <= m as int / 2);
        lemma_fundamental_div_mod(m as int, 2);
        assert(m as int == 2 * (m as int / 2) + (m as int % 2));
        assert(q + 1 <= m || m == 0);
    }
    let res: u64 = if r > half {
        q + 1
    } else if r == half {
        if sticky || q % 2 == 1 {
            q + 1
        } else {
            q
        }
    } else {
        q
    };
    assert(m == 0 ==> r == 0) by {
        vstd::arithmetic::div_mod::lemma_small_mod(0nat, p as nat);
    }
    assert(res <= m);
    assert(res == rhe_div(m as nat, k as nat, sticky));
    res
}

/// The position of the highest set bit of a non-zero `u64`.
fn floor_log2_u64(sig: u64) -> (fl: u32)
    requires
        sig >= 1,
    ensures
        fl == floor_log2(sig as nat),
        fl <= 63,
        pow2(fl as nat) <= sig < pow2(fl as nat + 1),
{
    let mut fl: u32 = 0;
    let mut rest: u64 = sig;
    proof {
        lemma2_to64();
    }
    while rest >= 2
        invariant
            sig >= 1,
            fl <= 63,
            rest == sig as nat / pow2(fl as nat),
            rest >= 1,
        decreases rest,
    {
        proof {
            lemma_pow2_pos(fl as nat);
            lemma_pow2_unfold(fl as nat + 1);
            vstd::arithmetic::div_mod::lemma_div_denominator(
                sig as int,
                pow2(fl as nat) as int,
                2,
            );
            if fl + 1 > 63 {
                // sig / pow2(64) >= 1 would need sig >= 2^64
                lemma2_to64();
                vstd::arithmetic::div_mod::lemma_basic_div(sig as int, pow2(64) as int);
                assert(false);
            }
        }
        rest = rest / 2;
        fl += 1;
    }
    proof {
        lemma_pow2_pos(fl as nat);
        lemma_fundamental_div_mod(sig as int, pow2(fl as nat) as int);
        lemma_pow2_unfold(fl as nat + 1);
        assert(sig as int == pow2(fl as nat) * (sig as int / pow2(fl as nat) as int) + sig as int
            % pow2(fl as nat) as int);
        assert(pow2(fl as nat) <= sig < pow2(fl as nat + 1));
        lemma_floor_log2(sig as nat, fl as nat);
    }
    fl
}

/// 2^53 as a `u64`.
const TWO_POW_53: u64 = 0x20_0000_0000_0000;

/// Rounds `sig * 2^e` (plus a positive sliver below `2^e` when
/// `sticky` is set) to the nearest binary64 value, returning its bit
/// pattern without a sign bit: the rounding work behind every
/// hexadecimal floating point literal.
#[verifier::rlimit(80)]
pub fn dyadic_bits(sig: u64, e: i128, sticky: bool) -> (r: u64)
    requires
        sig >= 1,
        sticky ==> sig >= 0x1000_0000_0000_0000,
        -0x10_0000_0000_0000_0000_0000i128 <= e <= 0x10_0000_0000_0000_0000_0000i128,
    ensures
        r == dyadic_to_bits(sig as nat, e as int, sticky),
        r <= F64_INF_BITS,
{
    let fl: u32 = floor_log2_u64(sig);
    proof {
        lemma2_to64();
        lemma2_to64_rest();
    }
    let l: i128 = fl as i128 + e;
    if l >= -1022 {
        let q: u64 = if fl >= 52 {
            let q0 = rhe_div_u64(sig, fl - 52, sticky);
            proof {
                // sig < 2^(fl+1) = 2^53 * 2^(fl-52), so sig / 2^(fl-52) < 2^53
                lemma_pow2_adds(53, (fl - 52) as nat);
                vstd::arithmetic::div_mod::lemma_multiply_divide_lt(
                    sig as int,
                    pow2((fl - 52) as nat) as int,
                    pow2(53) as int,
                );
                // sig >= 2^fl = 2^(fl-52) * 2^52, so sig / 2^(fl-52) >= 2^52
                lemma_pow2_adds(52, (fl - 52) as nat);
                vstd::arithmetic::div_mod::lemma_div_is_ordered(
                    (pow2(52) * pow2((fl - 52) as nat)) as int,
                    sig as int,
                    pow2((fl - 52) as nat) as int,
                );
                vstd::arithmetic::div_mod::lemma_div_multiples_vanish(
                    pow2(52) as int,
                    pow2((fl - 52) as nat) as int,
                );
            }
            q0
        } else {
            proof {
                lemma_pow2_adds(fl as nat + 1, (52 - fl) as nat);
                lemma_pow2_adds(fl as nat, (52 - fl) as nat);
                vstd::arithmetic::mul::lemma_mul_strict_inequality(
                    sig as int,
                    pow2(fl as nat + 1) as int,
                    pow2((52 - fl) as nat) as int,
                );
                vstd::arithmetic::mul::lemma_mul_inequality(
                    pow2(fl as nat) as int,
                    sig as int,
                    pow2((52 - fl) as nat) as int,
                );
            }
            sig * pow2u64(52 - fl)
        };
        assert(F64_IMPLICIT_BIT <= q <= TWO_POW_53);
        let mut l2: i128 = l;
        let mut q2: u64 = q;
        if q == TWO_POW_53 {
            l2 = l + 1;
            q2 = F64_IMPLICIT_BIT;
        }
        if l2 > 1023 {
            F64_INF_BITS
        } else {
            let ebits: u64 = (l2 + 1023) as u64;
            ebits * F64_IMPLICIT_BIT + (q2 - F64_IMPLICIT_BIT)
        }
    } else {
        let k2: i128 = -1074 - e;
        if k2 < 0 {
            // the value is an exact multiple of 2^-1074
            proof {
                // -k2 = 1074 + e and fl + e <= -1023, so fl - k2 <= 51
                lemma_pow2_adds(fl as nat + 1, (-k2) as nat);
                vstd::arithmetic::mul::lemma_mul_strict_inequality(
                    sig as int,
                    pow2(fl as nat + 1) as int,
                    pow2((-k2) as nat) as int,
                );
                lemma_pow2_strictly_increases((fl + 1 + (-k2)) as nat, 53);
            }
            sig * pow2u64((0 - k2) as u32)
        } else if k2 >= 65 {
            // even doubled, the value is below half the smallest subnormal
            proof {
                assert(rhe_div(sig as nat, k2 as nat, sticky) == 0) by {
                    lemma_pow2_strictly_increases(64, k2 as nat);
                    if k2 - 1 > 64 {
                        lemma_pow2_strictly_increases(64, (k2 - 1) as nat);
                    }
                    vstd::arithmetic::div_mod::lemma_basic_div(sig as int, pow2(k2 as nat) as int);
                    lemma_small_mod_u64(sig, pow2(k2 as nat));
                }
            }
            0
        } else if k2 == 64 {
            let r: u64 = if sig > F64_SIGN_BIT {
                1
            } else if sig == F64_SIGN_BIT && sticky {
                1
            } else {
                0
            };
            proof {
                assert(pow2(64) == 0x1_0000_0000_0000_0000nat);
                assert(pow2(63) == F64_SIGN_BIT as nat);
                vstd::arithmetic::div_mod::lemma_basic_div(sig as int, pow2(64) as int);
                lemma_small_mod_u64(sig, pow2(64));
            }
            r
        } else {
            let q = rhe_div_u64(sig, k2 as u32, sticky);
            proof {
                // fl <= k2 + 51, so sig < 2^(k2+52) and q <= 2^52
                assert(fl <= k2 + 51);
                lemma_pow2_adds(k2 as nat, 52);
                if (fl as int) + 1 < k2 + 52 {
                    lemma_pow2_strictly_increases((fl + 1) as nat, (k2 + 52) as nat);
                }
                vstd::arithmetic::div_mod::lemma_multiply_divide_lt(
                    sig as int,
                    pow2(k2 as nat) as int,
                    pow2(52) as int,
                );
            }
            q
        }
    }
}

/// Folds the hexadecimal digits of `ds` into `acc`, returning the
/// folded significand, scale and sticky flag.
fn fold_hex_slice(ds: &[u8], acc: FoldedSig) -> (r: FoldedSig)
    requires
        acc.sticky ==> acc.sig >= 0x1000_0000_0000_0000,
        acc.shift <= 0x8_0000_0000_0000_0000,
        ds@.len() <= 0x1_0000_0000_0000_0000,
        forall|j: int| 0 <= j < ds@.len() ==> is_hex_digit(#[trigger] ds@[j]),
    ensures
        spec_fold_hex(ds@, (acc.sig as nat, acc.shift as nat, acc.sticky)) == (
            r.sig as nat,
            r.shift as nat,
            r.sticky,
        ),
        r.sticky ==> r.sig >= 0x1000_0000_0000_0000,
        r.sig >= acc.sig,
        r.shift <= acc.shift + 4 * ds@.len(),
{
    let n: usize = ds.len();
    let mut sig: u64 = acc.sig;
    let mut shift: u128 = acc.shift;
    let mut sticky: bool = acc.sticky;
    let mut i: usize = 0;
    proof {
        assert(ds@.skip(0) =~= ds@);
    }
    while i < n
        invariant
            n == ds@.len(),
            n <= 0x1_0000_0000_0000_0000,
            0 <= i <= n,
            forall|j: int| 0 <= j < ds@.len() ==> is_hex_digit(#[trigger] ds@[j]),
            sticky ==> sig >= 0x1000_0000_0000_0000,
            sig >= acc.sig,
            acc.shift <= 0x8_0000_0000_0000_0000,
            shift <= acc.shift + 4 * i,
            spec_fold_hex(ds@.skip(i as int), (sig as nat, shift as nat, sticky))
                == spec_fold_hex(ds@, (acc.sig as nat, acc.shift as nat, acc.sticky)),
        decreases n - i,
    {
        let c: u8 = ds[i];
        let d: u32 = if 48 <= c && c <= 57 {
            (c - 48) as u32
        } else if 97 <= c && c <= 102 {
            (c - 97) as u32 + 10
        } else if 65 <= c && c <= 70 {
            (c - 65) as u32 + 10
        } else {
            16
        };
        assert(ds@.skip(i as int)[0] == ds@[i as int]);
        assert(d == spec_hex_digit(ds@.skip(i as int)[0]));
        assert(is_hex_digit(ds@[i as int]));
        assert(d < 16);
        proof {
            assert(ds@.skip(i as int).drop_first() =~= ds@.skip(i as int + 1));
        }
        if sig < 0x1000_0000_0000_0000 {
            sig = sig * 16 + d as u64;
        } else {
            shift = shift + 4;
            if d != 0 {
                sticky = true;
            }
        }
        i += 1;
    }
    proof {
        assert(ds@.skip(n as int).len() == 0);
    }
    FoldedSig { sig, shift, sticky }
}

/// The binary64 bit pattern of the hexadecimal floating point literal
/// with integer-part digits `ids`, fractional-part digits `fds`,
/// binary exponent `exp` and sign `neg`.  The conversion rounds to
/// nearest, ties to even, exactly as reading the literal as a real
/// number demands; overflow gives an infinity and underflow a zero.
pub fn hex_float_bits(ids: &[u8], fds: &[u8], exp: i64, neg: bool) -> (r: u64)
    requires
        ids@.len() <= 0x1_0000_0000_0000_0000,
        fds@.len() <= 0x1_0000_0000_0000_0000,
        forall|j: int| 0 <= j < ids@.len() ==> is_hex_digit(#[trigger] ids@[j]),
        forall|j: int| 0 <= j < fds@.len() ==> is_hex_digit(#[trigger] fds@[j]),
    ensures
        r == spec_hex_float_bits(ids@, fds@, exp as int, neg),
{
    let f0 = fold_hex_slice(ids, FoldedSig { sig: 0, shift: 0, sticky: false });
    let f1 = fold_hex_slice(fds, f0);
    proof {
        crate::floatbits::lemma_fold_hex_append(
            ids@,
            fds@,
            (0nat, 0nat, false),
        );
    }
    if f1.sig == 0 {
        return apply_sign(0, neg);
    }
    let e: i128 = exp as i128 - 4 * (fds.len() as i128) + f1.shift as i128;
    let b: u64 = dyadic_bits(f1.sig, e, f1.sticky);
    apply_sign(b, neg)
}

/// Folding a concatenation folds the two parts in turn.
pub proof fn lemma_fold_hex_append(a: Seq<u8>, b: Seq<u8>, acc: (nat, nat, bool))
    ensures
        spec_fold_hex(a + b, acc) == spec_fold_hex(b, spec_fold_hex(a, acc)),
    decreases a.len(),
{
    if a.len() == 0 {
        assert(a + b =~= b);
    } else {
        assert((a + b).drop_first() =~= a.drop_first() + b);
        lemma_fold_hex_append(a.drop_first(), b, spec_fold_hex_digit(acc, spec_hex_digit(a[0]) as nat));
    }
}

/// True when every byte of `s` is an ASCII decimal digit.
pub open spec fn all_dec_digits(s: Seq<u8>) -> bool {
    forall|j: int| 0 <= j < s.len() ==> is_dec_digit(#[trigger] s[j])
}

/// A JSON integer part: decimal digits, non-empty, with no leading
/// zero unless it is the single digit zero.
pub open spec fn json_int_digits(s: Seq<u8>) -> bool {
    &&& s.len() > 0
    &&& all_dec_digits(s)
    &&& (s[0] != 48 || s.len() == 1)
}

/// The text of an optional fractional part: `.` and the digits, or
/// nothing.
pub open spec fn frac_text(fp: Seq<u8>) -> Seq<u8> {
    if fp.len() == 0 {
        Seq::empty()
    } else {
        seq![46u8] + fp  // '.'
    }
}

/// The text of an optional exponent part: `e`, an optional `-`, and
/// the digits, or nothing.
pub open spec fn exp_text(eneg: bool, ep: Seq<u8>) -> Seq<u8> {
    if ep.len() == 0 {
        Seq::empty()
    } else if eneg {
        seq![101u8, 45u8] + ep  // 'e' '-'
    } else {
        seq![101u8] + ep  // 'e'
    }
}

/// True when `s` spells a non-negative number in JSON syntax: an
/// integer part, an optional fractional part, an optional exponent.
pub open spec fn json_number_shape(s: Seq<u8>) -> bool {
    exists|ip: Seq<u8>, fp: Seq<u8>, eneg: bool, ep: Seq<u8>|
        {
            &&& json_int_digits(ip)
            &&& (fp.len() == 0 || all_dec_digits(fp))
            &&& (ep.len() == 0 || all_dec_digits(ep))
            &&& s == ip + frac_text(fp) + exp_text(eneg, ep)
        }
}

/// The binary64 bit pattern nearest to the non-negative decimal
/// number spelled by `s`, with overflow giving the infinity pattern:
/// what a correctly rounded decimal-to-binary conversion returns.
pub uninterp spec fn dec_number_bits(s: Seq<u8>) -> u64;

/// Relies on `serde_json::Number`'s string parsing (with its
/// `float_roundtrip` feature, which rounds decimals to the nearest
/// binary64 value) together with `Number::as_f64` and `f64::to_bits`.
/// For input in JSON number syntax the parse fails only when the
/// rounded value is infinite, and a number without a leading minus
/// sign is non-negative.
#[verifier::external_body]
fn dec_number_bits_call(s: &[u8]) -> (r: Option<u64>)
    requires
        json_number_shape(s@),
    ensures
        r matches Some(b) ==> b == dec_number_bits(s@) && b < F64_INF_BITS,
        r is None ==> dec_number_bits(s@) == F64_INF_BITS,
{
    let t = match core::str::from_utf8(s) {
        Ok(t) => t,
        Err(_) => return None,
    };
    let n: serde_json::Number = match t.parse() {
        Ok(n) => n,
        Err(_) => return None,
    };
    let v = n.as_f64()?;
    Some(v.to_bits())
}

/// The binary64 bit pattern of the decimal number with the given
/// JSON-syntax magnitude text and sign, rounded to nearest with
/// overflow to infinity and underflow to zero.
pub fn dec_float_bits(s: &[u8], neg: bool) -> (r: u64)
    requires
        json_number_shape(s@),
    ensures
        r == spec_apply_sign(dec_number_bits(s@), neg),
{
    match dec_number_bits_call(s) {
        Some(b) => apply_sign(b, neg),
        None => apply_sign(F64_INF_BITS, neg),
    }
}

/// `x % m == x` for `x < m`.
proof fn lemma_small_mod_u64(x: u64, m: nat)
    requires
        x < m,
    ensures
        x as nat % m == x as nat,
{
    vstd::arithmetic::div_mod::lemma_small_mod(x as nat, m);
}

} // verus!
