//! The recogniser for the data-only Lua subset: a recursive-descent
//! parser over a byte slice, with a mathematical mirror of every
//! production.
//!
//! Each executable production is proved equal to its specification
//! function; the entry points in turn promise success exactly where
//! the specification grammar accepts, with the value tree pinned down
//! to its model.
#![allow(unused_imports)]
use vstd::prelude::*;
use crate::number::{LuaNumber, F64_NAN_BITS, F64_INF_BITS, F64_NEG_INF_BITS, f64_negate_bits};
use crate::floatbits::{
    is_hex_digit, is_dec_digit, spec_hex_digit, spec_hex_float_bits, hex_float_bits,
    spec_apply_sign, dec_number_bits, dec_float_bits, json_number_shape, json_int_digits,
    all_dec_digits, frac_text, exp_text,
};
use crate::value::{LuaStr, LuaValue, LuaTableEntry, ValModel, EntryModel, val_model, entry_model};
use crate::{is_lua_identifier, is_reserved_word, is_ident_start_byte, is_ident_byte};

verus! {

/// A parse failure, reported by value.
#[derive(Debug, Clone, Copy, PartialEq, Eq, Structural)]
pub enum LuaError {
    /// The input does not match the grammar; `at` is a byte offset
    /// near the failure.
    GrammarError { at: usize },
    /// The table-nesting budget was exhausted at a table opener.
    DepthExceeded,
    /// A malformed or out-of-range escape inside a short string;
    /// `at` is the offset of its backslash.
    InvalidEscape { at: usize },
    /// A reserved word stood where an identifier is required.
    IdentifierReserved { at: usize },
    /// A `name = value` entry whose name is not a valid identifier
    /// was handed to the output formatter.
    InvalidIdentifier,
}

/// Why a parse was abandoned outright instead of backtracking.
pub enum AbortKind {
    /// The depth budget was hit at a table opener.
    Depth,
    /// A malformed escape sequence.
    Escape,
    /// A reserved word in identifier position.
    Reserved,
}

/// The outcome of a specification production: a value with the index
/// after it, a backtrackable failure, or an abort.
pub enum SpRes<T> {
    /// The production matched, yielding a value and the next index.
    Found(T, int),
    /// The production did not match here.
    Fail,
    /// The parse stops with the given error kind.
    Abort(AbortKind),
}

/// Insignificant whitespace: space, tab, line feed, carriage return,
/// vertical tab, form feed.
pub open spec fn is_ws(c: u8) -> bool {
    c == 32 || c == 9 || c == 10 || c == 13 || c == 11 || c == 12
}

/// The first index at or after `i` that does not hold whitespace.
pub open spec fn sp_ws(s: Seq<u8>, i: int) -> int
    decreases s.len() - i,
{
    if 0 <= i < s.len() && is_ws(s[i]) {
        sp_ws(s, i + 1)
    } else {
        i
    }
}

/// Skipping whitespace never moves backwards nor past the end.
pub proof fn lemma_sp_ws(s: Seq<u8>, i: int)
    requires
        0 <= i <= s.len(),
    ensures
        i <= sp_ws(s, i) <= s.len(),
    decreases s.len() - i,
{
    if i < s.len() && is_ws(s[i]) {
        lemma_sp_ws(s, i + 1);
    }
}

/// Skips whitespace.
pub fn skip_ws(s: &[u8], i: usize) -> (r: usize)
    requires
        i <= s@.len(),
    ensures
        r == sp_ws(s@, i as int),
        i <= r <= s@.len(),
{
    let n: usize = s.len();
    let mut j: usize = i;
    while j < n && (s[j] == 32 || s[j] == 9 || s[j] == 10 || s[j] == 13 || s[j] == 11 || s[j]
        == 12)
        invariant
            i <= j <= n,
            n == s@.len(),
            sp_ws(s@, i as int) == sp_ws(s@, j as int),
        decreases n - j,
    {
        j += 1;
    }
    j
}

/// The literal `lit` appears in `s` at `i`.
pub open spec fn sp_lit_at(s: Seq<u8>, i: int, lit: Seq<u8>) -> bool {
    &&& 0 <= i
    &&& i + lit.len() <= s.len()
    &&& s.subrange(i, i + lit.len()) == lit
}

/// Tests whether `lit` appears in `s` at `i`.
pub fn lit_at(s: &[u8], i: usize, lit: &[u8]) -> (r: bool)
    requires
        i <= s@.len(),
    ensures
        r == sp_lit_at(s@, i as int, lit@),
{
    let m: usize = lit.len();
    let n: usize = s.len();
    if n - i < m {
        return false;
    }
    let mut k: usize = 0;
    while k < m
        invariant
            n == s@.len(),
            i + m <= n,
            m == lit@.len(),
            0 <= k <= m,
            forall|t: int| 0 <= t < k ==> s@[i + t] == lit@[t],
        decreases m - k,
    {
        if s[i + k] != lit[k] {
            assert(s@.subrange(i as int, i + lit@.len())[k as int] != lit@[k as int]);
            return false;
        }
        k += 1;
    }
    proof {
        assert(s@.subrange(i as int, i + lit@.len()) =~= lit@);
    }
    true
}

/// The first index at or after `i` that does not hold a decimal
/// digit.
pub open spec fn sp_dec_end(s: Seq<u8>, i: int) -> int
    decreases s.len() - i,
{
    if 0 <= i < s.len() && is_dec_digit(s[i]) {
        sp_dec_end(s, i + 1)
    } else {
        i
    }
}

/// A decimal-digit run stays within bounds.
pub proof fn lemma_sp_dec_end(s: Seq<u8>, i: int)
    requires
        0 <= i <= s.len(),
    ensures
        i <= sp_dec_end(s, i) <= s.len(),
        forall|t: int| i <= t < sp_dec_end(s, i) ==> is_dec_digit(#[trigger] s[t]),
    decreases s.len() - i,
{
    if i < s.len() && is_dec_digit(s[i]) {
        lemma_sp_dec_end(s, i + 1);
    }
}

/// Scans past decimal digits.
pub fn scan_dec(s: &[u8], i: usize) -> (r: usize)
    requires
        i <= s@.len(),
    ensures
        r == sp_dec_end(s@, i as int),
        i <= r <= s@.len(),
        forall|t: int| i <= t < r ==> is_dec_digit(#[trigger] s@[t]),
{
    let n: usize = s.len();
    let mut j: usize = i;
    while j < n && 48 <= s[j] && s[j] <= 57
        invariant
            i <= j <= n,
            n == s@.len(),
            sp_dec_end(s@, i as int) == sp_dec_end(s@, j as int),
            forall|t: int| i <= t < j ==> is_dec_digit(#[trigger] s@[t]),
        decreases n - j,
    {
        j += 1;
    }
    j
}

/// The first index at or after `i` that does not hold a hexadecimal
/// digit.
pub open spec fn sp_hex_end(s: Seq<u8>, i: int) -> int
    decreases s.len() - i,
{
    if 0 <= i < s.len() && is_hex_digit(s[i]) {
        sp_hex_end(s, i + 1)
    } else {
        i
    }
}

/// A hexadecimal-digit run stays within bounds.
pub proof fn lemma_sp_hex_end(s: Seq<u8>, i: int)
    requires
        0 <= i <= s.len(),
    ensures
        i <= sp_hex_end(s, i) <= s.len(),
        forall|t: int| i <= t < sp_hex_end(s, i) ==> is_hex_digit(#[trigger] s[t]),
    decreases s.len() - i,
{
    if i < s.len() && is_hex_digit(s[i]) {
        lemma_sp_hex_end(s, i + 1);
    }
}

/// Scans past hexadecimal digits.
pub fn scan_hex(s: &[u8], i: usize) -> (r: usize)
    requires
        i <= s@.len(),
    ensures
        r == sp_hex_end(s@, i as int),
        i <= r <= s@.len(),
        forall|t: int| i <= t < r ==> is_hex_digit(#[trigger] s@[t]),
{
    let n: usize = s.len();
    let mut j: usize = i;
    while j < n && (48 <= s[j] && s[j] <= 57 || 97 <= s[j] && s[j] <= 102 || 65 <= s[j] && s[j]
        <= 70)
        invariant
            i <= j <= n,
            n == s@.len(),
            sp_hex_end(s@, i as int) == sp_hex_end(s@, j as int),
            forall|t: int| i <= t < j ==> is_hex_digit(#[trigger] s@[t]),
        decreases n - j,
    {
        j += 1;
    }
    proof {
        if j < n {
            assert(!is_hex_digit(s@[j as int]));
        }
    }
    j
}

/// The token `1e9999`, which denotes positive infinity.
pub open spec fn inf_lit() -> Seq<u8> {
    seq![49u8, 101u8, 57u8, 57u8, 57u8, 57u8]
}

/// The token `-1e9999`, which denotes negative infinity.
pub open spec fn neg_inf_lit() -> Seq<u8> {
    seq![45u8, 49u8, 101u8, 57u8, 57u8, 57u8, 57u8]
}

/// The token `(0/0)`, which denotes NaN.
pub open spec fn nan_lit() -> Seq<u8> {
    seq![40u8, 48u8, 47u8, 48u8, 41u8]
}

/// Cap for exponent accumulation; exponents at or above it behave
/// alike, so folding saturates there.
pub const EXP_CAP: i64 = 0x38D7E_A4C6_8000;

/// Folds decimal digits into an exponent magnitude, saturating at
/// `EXP_CAP` (10^15).
pub open spec fn sp_exp_fold(ds: Seq<u8>, acc: i64) -> i64
    decreases ds.len(),
{
    if ds.len() == 0 {
        acc
    } else if acc >= EXP_CAP {
        sp_exp_fold(ds.drop_first(), EXP_CAP)
    } else {
        sp_exp_fold(ds.drop_first(), (acc * 10 + (ds[0] - 48)) as i64)
    }
}

/// The fold stays within bounds.
pub proof fn lemma_sp_exp_fold(ds: Seq<u8>, acc: i64)
    requires
        0 <= acc <= 10 * EXP_CAP + 9,
        all_dec_digits(ds),
    ensures
        0 <= sp_exp_fold(ds, acc) <= 10 * EXP_CAP + 9,
    decreases ds.len(),
{
    if ds.len() > 0 {
        assert(is_dec_digit(ds[0]));
        assert(all_dec_digits(ds.drop_first())) by {
            assert(forall|j: int| 0 <= j < ds.drop_first().len() ==> ds.drop_first()[j] == ds[j
                + 1] && is_dec_digit(#[trigger] ds.drop_first()[j]));
        }
        if acc >= EXP_CAP {
            lemma_sp_exp_fold(ds.drop_first(), EXP_CAP);
        } else {
            lemma_sp_exp_fold(ds.drop_first(), (acc * 10 + (ds[0] - 48)) as i64);
        }
    }
}

/// Folds decimal exponent digits, saturating.
pub fn exp_fold(s: &[u8], from: usize, to: usize) -> (r: i64)
    requires
        from <= to <= s@.len(),
        forall|t: int| from <= t < to ==> is_dec_digit(#[trigger] s@[t]),
    ensures
        r == sp_exp_fold(s@.subrange(from as int, to as int), 0),
        0 <= r <= 10 * EXP_CAP + 9,
{
    let mut acc: i64 = 0;
    let mut j: usize = from;
    proof {
        lemma_sp_exp_fold(s@.subrange(from as int, to as int), 0);
    }
    while j < to
        invariant
            from <= j <= to <= s@.len(),
            forall|t: int| from <= t < to ==> is_dec_digit(#[trigger] s@[t]),
            0 <= acc <= 10 * EXP_CAP + 9,
            sp_exp_fold(s@.subrange(j as int, to as int), acc) == sp_exp_fold(
                s@.subrange(from as int, to as int),
                0,
            ),
        decreases to - j,
    {
        proof {
            assert(s@.subrange(j as int, to as int).drop_first() =~= s@.subrange(
                j as int + 1,
                to as int,
            ));
            assert(s@.subrange(j as int, to as int)[0] == s@[j as int]);
        }
        if acc >= EXP_CAP {
            acc = EXP_CAP;
        } else {
            acc = acc * 10 + (s[j] - 48) as i64;
        }
        j += 1;
    }
    proof {
        assert(s@.subrange(to as int, to as int).len() == 0);
        lemma_sp_exp_fold(s@.subrange(from as int, to as int), 0);
    }
    acc
}

/// A binary exponent marker at `q`: `p` or `P`, an optional sign,
/// and at least one decimal digit.  Yields the signed exponent,
/// saturated in magnitude, and the index after it.
pub open spec fn sp_bin_exp(s: Seq<u8>, q: int) -> Option<(i64, int)> {
    if 0 <= q < s.len() && (s[q] == 112 || s[q] == 80) {
        let (en, q1): (bool, int) = if q + 1 < s.len() && s[q + 1] == 45 {
            (true, q + 2)
        } else if q + 1 < s.len() && s[q + 1] == 43 {
            (false, q + 2)
        } else {
            (false, q + 1)
        };
        let de = sp_dec_end(s, q1);
        if de == q1 {
            None
        } else {
            let mag = sp_exp_fold(s.subrange(q1, de), 0);
            Some((if en { (-1 * mag) as i64 } else { mag }, de))
        }
    } else {
        None
    }
}

/// Parses a binary exponent.
pub fn bin_exp(s: &[u8], q: usize) -> (r: Option<(i64, usize)>)
    requires
        q <= s@.len(),
    ensures
        r matches Some((e, p)) ==> sp_bin_exp(s@, q as int) == Some((e, p as int)) && q < p
            <= s@.len() && -(10 * EXP_CAP + 9) <= e <= 10 * EXP_CAP + 9,
        r is None ==> sp_bin_exp(s@, q as int) is None,
{
    if q >= s.len() || !(s[q] == 112 || s[q] == 80) {
        return None;
    }
    let (en, q1): (bool, usize) = if q + 1 < s.len() && s[q + 1] == 45 {
        (true, q + 2)
    } else if q + 1 < s.len() && s[q + 1] == 43 {
        (false, q + 2)
    } else {
        (false, q + 1)
    };
    let de = scan_dec(s, q1);
    if de == q1 {
        return None;
    }
    let mag = exp_fold(s, q1, de);
    assert(0 <= mag <= 10 * EXP_CAP + 9);
    let e: i64 = if en {
        0 - mag
    } else {
        mag
    };
    Some((e, de))
}

/// Cap for decimal-integer folding: 2^64.  Both `i64` bounds lie
/// below it, so a capped fold decides the fit exactly.
pub const DEC_CAP: u128 = 0x1_0000_0000_0000_0000;

/// Folds decimal digits into their value, saturating at `DEC_CAP`.
pub open spec fn sp_dec_cap_fold(ds: Seq<u8>, acc: u128) -> u128
    decreases ds.len(),
{
    if ds.len() == 0 {
        acc
    } else if acc >= DEC_CAP {
        sp_dec_cap_fold(ds.drop_first(), DEC_CAP)
    } else {
        sp_dec_cap_fold(ds.drop_first(), (acc * 10 + (ds[0] - 48)) as u128)
    }
}

/// The capped fold stays within bounds.
pub proof fn lemma_sp_dec_cap_fold(ds: Seq<u8>, acc: u128)
    requires
        acc <= 10 * DEC_CAP + 9,
        all_dec_digits(ds),
    ensures
        sp_dec_cap_fold(ds, acc) <= 10 * DEC_CAP + 9,
    decreases ds.len(),
{
    if ds.len() > 0 {
        assert(is_dec_digit(ds[0]));
        assert(all_dec_digits(ds.drop_first())) by {
            assert(forall|j: int| 0 <= j < ds.drop_first().len() ==> ds.drop_first()[j] == ds[j
                + 1] && is_dec_digit(#[trigger] ds.drop_first()[j]));
        }
        if acc >= DEC_CAP {
            lemma_sp_dec_cap_fold(ds.drop_first(), DEC_CAP);
        } else {
            lemma_sp_dec_cap_fold(ds.drop_first(), (acc * 10 + (ds[0] - 48)) as u128);
        }
    }
}

/// Folds a run of decimal digits of `s`, saturating at `DEC_CAP`.
pub fn dec_cap_fold(s: &[u8], from: usize, to: usize) -> (r: u128)
    requires
        from <= to <= s@.len(),
        forall|t: int| from <= t < to ==> is_dec_digit(#[trigger] s@[t]),
    ensures
        r == sp_dec_cap_fold(s@.subrange(from as int, to as int), 0),
        r <= 10 * DEC_CAP + 9,
{
    let mut acc: u128 = 0;
    let mut j: usize = from;
    proof {
        lemma_sp_dec_cap_fold(s@.subrange(from as int, to as int), 0);
    }
    while j < to
        invariant
            from <= j <= to <= s@.len(),
            forall|t: int| from <= t < to ==> is_dec_digit(#[trigger] s@[t]),
            acc <= 10 * DEC_CAP + 9,
            sp_dec_cap_fold(s@.subrange(j as int, to as int), acc) == sp_dec_cap_fold(
                s@.subrange(from as int, to as int),
                0,
            ),
        decreases to - j,
    {
        proof {
            assert(s@.subrange(j as int, to as int).drop_first() =~= s@.subrange(
                j as int + 1,
                to as int,
            ));
            assert(s@.subrange(j as int, to as int)[0] == s@[j as int]);
        }
        if acc >= DEC_CAP {
            acc = DEC_CAP;
        } else {
            acc = acc * 10 + (s[j] - 48) as u128;
        }
        j += 1;
    }
    proof {
        assert(s@.subrange(to as int, to as int).len() == 0);
        lemma_sp_dec_cap_fold(s@.subrange(from as int, to as int), 0);
    }
    acc
}

/// Drops leading zero digits, keeping at least one digit.
pub open spec fn sp_strip_zeros(ds: Seq<u8>) -> Seq<u8>
    decreases ds.len(),
{
    if ds.len() > 1 && ds[0] == 48 {
        sp_strip_zeros(ds.drop_first())
    } else {
        ds
    }
}

/// The JSON-syntax integer part standing for digits `d1`: leading
/// zeros dropped, an empty part written as one zero digit.
pub open spec fn int_norm(d1: Seq<u8>) -> Seq<u8> {
    if d1.len() == 0 {
        seq![48u8]
    } else {
        sp_strip_zeros(d1)
    }
}

/// The normalised integer part is in JSON integer syntax.
pub proof fn lemma_int_norm(d1: Seq<u8>)
    requires
        all_dec_digits(d1),
    ensures
        json_int_digits(int_norm(d1)),
        all_dec_digits(int_norm(d1)),
    decreases d1.len(),
{
    if d1.len() == 0 {
        assert(int_norm(d1) =~= seq![48u8]);
        assert(is_dec_digit(48));
        assert(forall|j: int| 0 <= j < seq![48u8].len() ==> is_dec_digit(#[trigger] seq![48u8][j]));
    } else if d1.len() > 1 && d1[0] == 48 {
        assert(all_dec_digits(d1.drop_first())) by {
            assert(forall|j: int| 0 <= j < d1.drop_first().len() ==> d1.drop_first()[j] == d1[j + 1]
                && is_dec_digit(#[trigger] d1.drop_first()[j]));
        }
        lemma_int_norm(d1.drop_first());
        assert(int_norm(d1) == int_norm(d1.drop_first()));
    } else {
        assert(sp_strip_zeros(d1) == d1);
    }
}

/// The index where `sp_strip_zeros` of the digit run `[from, to)`
/// begins inside it.
pub fn strip_zeros_start(s: &[u8], from: usize, to: usize) -> (r: usize)
    requires
        from < to <= s@.len(),
        forall|t: int| from <= t < to ==> is_dec_digit(#[trigger] s@[t]),
    ensures
        from <= r < to,
        s@.subrange(r as int, to as int) == sp_strip_zeros(s@.subrange(from as int, to as int)),
{
    let mut j: usize = from;
    while j + 1 < to && s[j] == 48
        invariant
            from <= j < to <= s@.len(),
            sp_strip_zeros(s@.subrange(j as int, to as int)) == sp_strip_zeros(
                s@.subrange(from as int, to as int),
            ),
        decreases to - j,
    {
        proof {
            assert(s@.subrange(j as int, to as int).drop_first() =~= s@.subrange(
                j as int + 1,
                to as int,
            ));
            assert(s@.subrange(j as int, to as int)[0] == s@[j as int]);
            assert(s@.subrange(j as int, to as int).len() > 1);
        }
        j += 1;
    }
    proof {
        let sub = s@.subrange(j as int, to as int);
        if sub.len() > 1 {
            assert(sub[0] == s@[j as int]);
            assert(sub[0] != 48);
        }
        assert(sp_strip_zeros(sub) == sub);
    }
    j
}

/// Appends bytes `[a, b)` of `s` to `out`.
pub fn push_range(out: &mut Vec<u8>, s: &[u8], a: usize, b: usize)
    requires
        a <= b <= s@.len(),
    ensures
        final(out)@ == old(out)@ + s@.subrange(a as int, b as int),
{
    let mut j: usize = a;
    while j < b
        invariant
            a <= j <= b <= s@.len(),
            out@ == old(out)@ + s@.subrange(a as int, j as int),
        decreases b - j,
    {
        out.push(s[j]);
        proof {
            assert(old(out)@ + s@.subrange(a as int, j as int + 1) =~= (old(out)@ + s@.subrange(
                a as int,
                j as int,
            )).push(s@[j as int]));
        }
        j += 1;
    }
    proof {
        if a == b {
            assert(out@ =~= old(out)@ + s@.subrange(a as int, b as int));
        }
    }
}


/// A decimal exponent marker at `q`: `e` or `E`, an optional sign,
/// and at least one digit.  Yields the sign, the digit span, and the
/// index after it.
pub open spec fn sp_dec_exp_span(s: Seq<u8>, q: int) -> Option<(bool, int, int)> {
    if 0 <= q < s.len() && (s[q] == 101 || s[q] == 69) {
        let (en, q1): (bool, int) = if q + 1 < s.len() && s[q + 1] == 45 {
            (true, q + 2)
        } else if q + 1 < s.len() && s[q + 1] == 43 {
            (false, q + 2)
        } else {
            (false, q + 1)
        };
        let de = sp_dec_end(s, q1);
        if de == q1 {
            None
        } else {
            Some((en, q1, de))
        }
    } else {
        None
    }
}

/// Parses a decimal exponent span.
pub fn dec_exp_span(s: &[u8], q: usize) -> (r: Option<(bool, usize, usize)>)
    requires
        q <= s@.len(),
    ensures
        r matches Some((en, a, b)) ==> sp_dec_exp_span(s@, q as int) == Some((en, a as int,
            b as int)) && q < a < b <= s@.len() && (forall|t: int|
            a <= t < b ==> is_dec_digit(#[trigger] s@[t])),
        r is None ==> sp_dec_exp_span(s@, q as int) is None,
{
    if q >= s.len() || !(s[q] == 101 || s[q] == 69) {
        return None;
    }
    let (en, q1): (bool, usize) = if q + 1 < s.len() && s[q + 1] == 45 {
        (true, q + 2)
    } else if q + 1 < s.len() && s[q + 1] == 43 {
        (false, q + 2)
    } else {
        (false, q + 1)
    };
    let de = scan_dec(s, q1);
    if de == q1 {
        return None;
    }
    Some((en, q1, de))
}

/// The hexadecimal alternatives after a `0x` or `0X` prefix ending at
/// `p`: a hex float with a radix point, a hex float with a binary
/// exponent, or a hex integer wrapping modulo 2^64.
pub open spec fn sp_hex_numeral(s: Seq<u8>, p: int, neg: bool) -> Option<(LuaNumber, int)> {
    let ie = sp_hex_end(s, p);
    let ids = s.subrange(p, ie);
    if ie < s.len() && s[ie] == 46 {
        let fe = sp_hex_end(s, ie + 1);
        let fds = s.subrange(ie + 1, fe);
        if ids.len() == 0 && fds.len() == 0 {
            None
        } else {
            match sp_bin_exp(s, fe) {
                Some((e, end)) => Some(
                    (LuaNumber::Float(spec_hex_float_bits(ids, fds, e as int, neg)), end),
                ),
                None => Some((LuaNumber::Float(spec_hex_float_bits(ids, fds, 0, neg)), fe)),
            }
        }
    } else if ids.len() == 0 {
        None
    } else {
        match sp_bin_exp(s, ie) {
            Some((e, end)) => Some(
                (LuaNumber::Float(spec_hex_float_bits(ids, Seq::empty(), e as int, neg)), end),
            ),
            None => match crate::spec_wrapping_parse_int(ids, 16, !neg) {
                Some(v) => Some((LuaNumber::Integer(v), ie)),
                None => None,
            },
        }
    }
}

/// The decimal alternatives at `j` (after the sign): a decimal float
/// with a radix point or exponent, a decimal integer that fits `i64`,
/// or a decimal integer coerced to the nearest float.
pub open spec fn sp_dec_numeral(s: Seq<u8>, j: int, neg: bool) -> Option<(LuaNumber, int)> {
    let d1e = sp_dec_end(s, j);
    let d1 = s.subrange(j, d1e);
    if d1e < s.len() && s[d1e] == 46 {
        let d2e = sp_dec_end(s, d1e + 1);
        let d2 = s.subrange(d1e + 1, d2e);
        if d1.len() == 0 && d2.len() == 0 {
            None
        } else {
            let frac = if d2.len() == 0 {
                seq![48u8]
            } else {
                d2
            };
            match sp_dec_exp_span(s, d2e) {
                Some((en, a, b)) => Some(
                    (
                        LuaNumber::Float(
                            spec_apply_sign(
                                dec_number_bits(
                                    int_norm(d1) + frac_text(frac) + exp_text(en, s.subrange(a, b)),
                                ),
                                neg,
                            ),
                        ),
                        b,
                    ),
                ),
                None => Some(
                    (
                        LuaNumber::Float(
                            spec_apply_sign(dec_number_bits(int_norm(d1) + frac_text(frac)), neg),
                        ),
                        d2e,
                    ),
                ),
            }
        }
    } else if d1.len() == 0 {
        None
    } else {
        match sp_dec_exp_span(s, d1e) {
            Some((en, a, b)) => Some(
                (
                    LuaNumber::Float(
                        spec_apply_sign(
                            dec_number_bits(int_norm(d1) + exp_text(en, s.subrange(a, b))),
                            neg,
                        ),
                    ),
                    b,
                ),
            ),
            None => {
                let v = sp_dec_cap_fold(d1, 0);
                if !neg && v <= 0x7FFF_FFFF_FFFF_FFFF {
                    Some((LuaNumber::Integer(v as i64), d1e))
                } else if neg && v <= 0x8000_0000_0000_0000 {
                    Some((LuaNumber::Integer((-(v as int)) as i64), d1e))
                } else {
                    Some(
                        (
                            LuaNumber::Float(spec_apply_sign(dec_number_bits(int_norm(d1)), neg)),
                            d1e,
                        ),
                    )
                }
            },
        }
    }
}

/// A numeral at `i`: the infinity and NaN tokens first, then the
/// signed hexadecimal and decimal alternatives.
pub open spec fn sp_numeral(s: Seq<u8>, i: int) -> Option<(LuaNumber, int)> {
    if sp_lit_at(s, i, neg_inf_lit()) {
        Some((LuaNumber::Float(F64_NEG_INF_BITS), i + 7))
    } else if sp_lit_at(s, i, inf_lit()) {
        Some((LuaNumber::Float(F64_INF_BITS), i + 6))
    } else if sp_lit_at(s, i, nan_lit()) {
        Some((LuaNumber::Float(F64_NAN_BITS), i + 5))
    } else {
        let neg = 0 <= i < s.len() && s[i] == 45;
        let j = if 0 <= i < s.len() && (s[i] == 45 || s[i] == 43) {
            i + 1
        } else {
            i
        };
        if j + 2 <= s.len() && s[j] == 48 && (s[j + 1] == 120 || s[j + 1] == 88) {
            sp_hex_numeral(s, j + 2, neg)
        } else {
            sp_dec_numeral(s, j, neg)
        }
    }
}

/// Builds the JSON-syntax magnitude text of a decimal float literal:
/// the normalised integer digits, an optional fractional part, an
/// optional exponent.  `de == ds` means no fractional digits and
/// `eb == ea` no exponent.
fn build_dec_text(
    s: &[u8],
    ia: usize,
    ib: usize,
    has_frac: bool,
    fa: usize,
    fb: usize,
    has_exp: bool,
    en: bool,
    ea: usize,
    eb: usize,
) -> (r: Vec<u8>)
    requires
        ia <= ib <= s@.len(),
        fa <= fb <= s@.len(),
        ea <= eb <= s@.len(),
        forall|t: int| ia <= t < ib ==> is_dec_digit(#[trigger] s@[t]),
        forall|t: int| fa <= t < fb ==> is_dec_digit(#[trigger] s@[t]),
        forall|t: int| ea <= t < eb ==> is_dec_digit(#[trigger] s@[t]),
        has_exp ==> ea < eb,
    ensures
        r@ == int_norm(s@.subrange(ia as int, ib as int)) + (if has_frac {
            frac_text(
                if fa == fb {
                    seq![48u8]
                } else {
                    s@.subrange(fa as int, fb as int)
                },
            )
        } else {
            Seq::<u8>::empty()
        }) + (if has_exp {
            exp_text(en, s@.subrange(ea as int, eb as int))
        } else {
            Seq::<u8>::empty()
        }),
        json_number_shape(r@),
{
    let ghost d1 = s@.subrange(ia as int, ib as int);
    let mut out: Vec<u8> = Vec::new();
    if ia == ib {
        out.push(48);
        proof {
            assert(d1.len() == 0);
            assert(out@ =~= int_norm(d1));
        }
    } else {
        let st = strip_zeros_start(s, ia, ib);
        push_range(&mut out, s, st, ib);
        proof {
            assert(out@ =~= int_norm(d1));
        }
    }
    let ghost ipart = out@;
    let ghost fpart: Seq<u8> = if has_frac {
        frac_text(
            if fa == fb {
                seq![48u8]
            } else {
                s@.subrange(fa as int, fb as int)
            },
        )
    } else {
        Seq::<u8>::empty()
    };
    if has_frac {
        out.push(46);
        if fa == fb {
            out.push(48);
            proof {
                assert(out@ =~= ipart + fpart);
            }
        } else {
            push_range(&mut out, s, fa, fb);
            proof {
                assert(out@ =~= ipart + fpart);
            }
        }
    } else {
        proof {
            assert(out@ =~= ipart + fpart);
        }
    }
    let ghost epart: Seq<u8> = if has_exp {
        exp_text(en, s@.subrange(ea as int, eb as int))
    } else {
        Seq::<u8>::empty()
    };
    if has_exp {
        out.push(101);
        if en {
            out.push(45);
        }
        push_range(&mut out, s, ea, eb);
        proof {
            assert(out@ =~= ipart + fpart + epart);
        }
    } else {
        proof {
            assert(out@ =~= ipart + fpart + epart);
        }
    }
    proof {
        lemma_int_norm(d1);
        let fseq: Seq<u8> = if has_frac {
            if fa == fb {
                seq![48u8]
            } else {
                s@.subrange(fa as int, fb as int)
            }
        } else {
            Seq::<u8>::empty()
        };
        let eseq: Seq<u8> = if has_exp {
            s@.subrange(ea as int, eb as int)
        } else {
            Seq::<u8>::empty()
        };
        assert(fseq.len() == 0 || all_dec_digits(fseq)) by {
            if has_frac && fa == fb {
                assert(is_dec_digit(48));
                assert(forall|t: int| 0 <= t < seq![48u8].len() ==> is_dec_digit(
                    #[trigger] seq![48u8][t],
                ));
            }
        }
        assert(eseq.len() == 0 || all_dec_digits(eseq));
        assert(fpart =~= frac_text(fseq)) by {
            if !has_frac {
                assert(frac_text(Seq::<u8>::empty()) =~= Seq::<u8>::empty());
            }
        }
        assert(epart =~= exp_text(en, eseq)) by {
            if !has_exp {
                assert(exp_text(en, Seq::<u8>::empty()) =~= Seq::<u8>::empty());
            }
        }
        assert(out@ == ipart + frac_text(fseq) + exp_text(en, eseq));
        assert(json_number_shape(out@));
    }
    out
}

/// Parses a numeral at `i`.
#[verifier::rlimit(100)]
pub fn numeral(s: &[u8], i: usize) -> (r: Option<(LuaNumber, usize)>)
    requires
        i <= s@.len(),
    ensures
        r matches Some((v, p)) ==> sp_numeral(s@, i as int) == Some((v, p as int)) && i < p
            <= s@.len(),
        r is None ==> sp_numeral(s@, i as int) is None,
{
    let n: usize = s.len();
    let neg_inf_t: Vec<u8> = vec![45u8, 49u8, 101u8, 57u8, 57u8, 57u8, 57u8];
    let inf_t: Vec<u8> = vec![49u8, 101u8, 57u8, 57u8, 57u8, 57u8];
    let nan_t: Vec<u8> = vec![40u8, 48u8, 47u8, 48u8, 41u8];
    proof {
        assert(neg_inf_t@ =~= neg_inf_lit());
        assert(inf_t@ =~= inf_lit());
        assert(nan_t@ =~= nan_lit());
    }
    if lit_at(s, i, neg_inf_t.as_slice()) {
        assert(i + 7 <= n);
        return Some((LuaNumber::Float(F64_NEG_INF_BITS), i + 7));
    }
    if lit_at(s, i, inf_t.as_slice()) {
        assert(i + 6 <= n);
        return Some((LuaNumber::Float(F64_INF_BITS), i + 6));
    }
    if lit_at(s, i, nan_t.as_slice()) {
        assert(i + 5 <= n);
        return Some((LuaNumber::Float(F64_NAN_BITS), i + 5));
    }
    let neg: bool = i < n && s[i] == 45;
    let j: usize = if i < n && (s[i] == 45 || s[i] == 43) {
        i + 1
    } else {
        i
    };
    if n - j >= 2 && s[j] == 48 && (s[j + 1] == 120 || s[j + 1] == 88) {
        // hexadecimal alternatives
        let p: usize = j + 2;
        let ie = scan_hex(s, p);
        if ie < n && s[ie] == 46 {
            let fe = scan_hex(s, ie + 1);
            if ie == p && fe == ie + 1 {
                proof {
                    assert(s@.subrange(p as int, ie as int).len() == 0);
                    assert(s@.subrange(ie as int + 1, fe as int).len() == 0);
                }
                return None;
            }
            proof {
                assert(s@.subrange(p as int, ie as int).len() + s@.subrange(
                    ie as int + 1,
                    fe as int,
                ).len() > 0);
            }
            match bin_exp(s, fe) {
                Some((e, end)) => {
                    let b = hex_float_bits(&s[p..ie], &s[ie + 1..fe], e, neg);
                    return Some((LuaNumber::Float(b), end));
                },
                None => {
                    let b = hex_float_bits(&s[p..ie], &s[ie + 1..fe], 0, neg);
                    return Some((LuaNumber::Float(b), fe));
                },
            }
        } else if ie == p {
            proof {
                assert(s@.subrange(p as int, ie as int).len() == 0);
            }
            return None;
        } else {
            match bin_exp(s, ie) {
                Some((e, end)) => {
                    let b = hex_float_bits(&s[p..ie], &s[ie..ie], e, neg);
                    proof {
                        assert(s@.subrange(ie as int, ie as int) =~= Seq::<u8>::empty());
                    }
                    return Some((LuaNumber::Float(b), end));
                },
                None => {
                    match crate::wrapping_parse_int(&s[p..ie], 16, !neg) {
                        Some(v) => {
                            return Some((LuaNumber::Integer(v), ie));
                        },
                        None => {
                            return None;
                        },
                    }
                },
            }
        }
    }
    // decimal alternatives
    let d1e = scan_dec(s, j);
    if d1e < n && s[d1e] == 46 {
        let d2e = scan_dec(s, d1e + 1);
        if d1e == j && d2e == d1e + 1 {
            proof {
                assert(s@.subrange(j as int, d1e as int).len() == 0);
                assert(s@.subrange(d1e as int + 1, d2e as int).len() == 0);
            }
            return None;
        }
        proof {
            assert(s@.subrange(j as int, d1e as int).len() + s@.subrange(
                d1e as int + 1,
                d2e as int,
            ).len() > 0);
        }
        match dec_exp_span(s, d2e) {
            Some((en, a, b)) => {
                let text = build_dec_text(s, j, d1e, true, d1e + 1, d2e, true, en, a, b);
                let bits = dec_float_bits(text.as_slice(), neg);
                return Some((LuaNumber::Float(bits), b));
            },
            None => {
                let text = build_dec_text(s, j, d1e, true, d1e + 1, d2e, false, false, 0, 0);
                let bits = dec_float_bits(text.as_slice(), neg);
                return Some((LuaNumber::Float(bits), d2e));
            },
        }
    }
    if d1e == j {
        proof {
            assert(s@.subrange(j as int, d1e as int).len() == 0);
        }
        return None;
    }
    match dec_exp_span(s, d1e) {
        Some((en, a, b)) => {
            let text = build_dec_text(s, j, d1e, false, 0, 0, true, en, a, b);
            let bits = dec_float_bits(text.as_slice(), neg);
            Some((LuaNumber::Float(bits), b))
        },
        None => {
            let v = dec_cap_fold(s, j, d1e);
            if !neg && v <= 0x7FFF_FFFF_FFFF_FFFF {
                Some((LuaNumber::Integer(v as i64), d1e))
            } else if neg && v <= 0x8000_0000_0000_0000 {
                let sv: i64 = if v == 0x8000_0000_0000_0000 {
                    i64::MIN
                } else {
                    0 - (v as i64)
                };
                Some((LuaNumber::Integer(sv), d1e))
            } else {
                let text = build_dec_text(s, j, d1e, false, 0, 0, false, false, 0, 0);
                let bits = dec_float_bits(text.as_slice(), neg);
                Some((LuaNumber::Float(bits), d1e))
            }
        },
    }
}

/// The RFC 2279 encoding of a code point with `mfb` the largest value
/// that still fits the current lead byte, following Lua's own
/// encoder; continuation bytes carry six bits each.
pub open spec fn sp_utf8esc_rec(cp: nat, mfb: nat) -> Seq<u8>
    decreases cp,
{
    if cp <= mfb {
        seq![(254 - 2 * mfb + cp) as u8]
    } else {
        sp_utf8esc_rec(cp / 64, mfb / 2) + seq![(128 + cp % 64) as u8]
    }
}

/// The bytes produced by a `\u{...}` escape: the code point itself
/// below 0x80, its RFC 2279 encoding otherwise.
pub open spec fn sp_utf8esc(cp: nat) -> Seq<u8> {
    if cp < 0x80 {
        seq![cp as u8]
    } else {
        sp_utf8esc_rec(cp, 0x3f)
    }
}

/// Folds hexadecimal digits of a `\u{...}` escape, saturating at
/// 2^31 (any saturated value is out of range).
pub open spec fn sp_u_fold(ds: Seq<u8>, acc: nat) -> nat
    decreases ds.len(),
{
    if ds.len() == 0 {
        acc
    } else if acc >= 0x8000_0000 {
        sp_u_fold(ds.drop_first(), 0x8000_0000)
    } else {
        sp_u_fold(ds.drop_first(), acc * 16 + spec_hex_digit(ds[0]) as nat)
    }
}

/// An escape sequence at `i`, which holds the backslash: the decoded
/// bytes and the index after the sequence.  A malformed or
/// out-of-range escape aborts the parse.
pub open spec fn sp_escape(s: Seq<u8>, i: int) -> SpRes<Seq<u8>> {
    if i + 1 >= s.len() {
        SpRes::Abort(AbortKind::Escape)
    } else {
        let c = s[i + 1];
        if c == 97 {  // \a
            SpRes::Found(seq![7u8], i + 2)
        } else if c == 98 {  // \b
            SpRes::Found(seq![8u8], i + 2)
        } else if c == 102 {  // \f
            SpRes::Found(seq![12u8], i + 2)
        } else if c == 110 {  // \n
            SpRes::Found(seq![10u8], i + 2)
        } else if c == 114 {  // \r
            SpRes::Found(seq![13u8], i + 2)
        } else if c == 116 {  // \t
            SpRes::Found(seq![9u8], i + 2)
        } else if c == 118 {  // \v
            SpRes::Found(seq![11u8], i + 2)
        } else if c == 92 || c == 34 || c == 39 {  // \\ \" \'
            SpRes::Found(seq![c], i + 2)
        } else if c == 13 {  // backslash, carriage return
            if i + 2 < s.len() && s[i + 2] == 10 {
                SpRes::Found(seq![13u8, 10u8], i + 3)
            } else {
                SpRes::Found(seq![13u8], i + 2)
            }
        } else if c == 10 {  // backslash, line feed
            if i + 2 < s.len() && s[i + 2] == 13 {
                SpRes::Found(seq![10u8, 13u8], i + 3)
            } else {
                SpRes::Found(seq![10u8], i + 2)
            }
        } else if c == 122 {  // \z skips whitespace
            SpRes::Found(Seq::empty(), sp_ws(s, i + 2))
        } else if c == 120 {  // \xHH
            if i + 3 < s.len() && is_hex_digit(s[i + 2]) && is_hex_digit(s[i + 3]) {
                SpRes::Found(
                    seq![(spec_hex_digit(s[i + 2]) * 16 + spec_hex_digit(s[i + 3])) as u8],
                    i + 4,
                )
            } else {
                SpRes::Abort(AbortKind::Escape)
            }
        } else if is_dec_digit(c) {  // \D, \DD or \DDD
            let de = sp_dec_end(s, i + 1);
            let de3 = if de > i + 4 {
                i + 4
            } else {
                de
            };
            let v = sp_dec_cap_fold(s.subrange(i + 1, de3), 0);
            if v <= 255 {
                SpRes::Found(seq![v as u8], de3)
            } else {
                SpRes::Abort(AbortKind::Escape)
            }
        } else if c == 117 {  // \u{H...}
            if i + 2 < s.len() && s[i + 2] == 123 {
                let he = sp_hex_end(s, i + 3);
                if he == i + 3 {
                    SpRes::Abort(AbortKind::Escape)
                } else if he < s.len() && s[he] == 125 {
                    let v = sp_u_fold(s.subrange(i + 3, he), 0);
                    if v <= 0x7FFF_FFFF {
                        SpRes::Found(sp_utf8esc(v), he + 1)
                    } else {
                        SpRes::Abort(AbortKind::Escape)
                    }
                } else {
                    SpRes::Abort(AbortKind::Escape)
                }
            } else {
                SpRes::Abort(AbortKind::Escape)
            }
        } else {
            SpRes::Abort(AbortKind::Escape)
        }
    }
}

/// The body of a single- or double-quoted string from `i`, with
/// terminator `q`: the decoded bytes and the index after the closing
/// quote.  Line breaks in the body do not match; escapes decode by
/// `sp_escape`.
pub open spec fn sp_qstr(s: Seq<u8>, i: int, q: u8) -> SpRes<Seq<u8>>
    decreases s.len() - i, 0int,
    via sp_qstr_dec
{
    if i < 0 || i >= s.len() {
        SpRes::Fail
    } else if s[i] == q {
        SpRes::Found(Seq::empty(), i + 1)
    } else if s[i] == 13 || s[i] == 10 {
        SpRes::Fail
    } else if s[i] == 92 {
        match sp_escape(s, i) {
            SpRes::Found(bs, p) => {
                let p1 = if p > i {
                    p
                } else {
                    i + 1
                };
                match sp_qstr(s, p1, q) {
                    SpRes::Found(rest, e) => SpRes::Found(bs + rest, e),
                    SpRes::Fail => SpRes::Fail,
                    SpRes::Abort(k) => SpRes::Abort(k),
                }
            },
            SpRes::Fail => SpRes::Fail,
            SpRes::Abort(k) => SpRes::Abort(k),
        }
    } else {
        match sp_qstr(s, i + 1, q) {
            SpRes::Found(rest, e) => SpRes::Found(seq![s[i]] + rest, e),
            SpRes::Fail => SpRes::Fail,
            SpRes::Abort(k) => SpRes::Abort(k),
        }
    }
}

#[via_fn]
proof fn sp_qstr_dec(s: Seq<u8>, i: int, q: u8) {
    if 0 <= i < s.len() && s[i] == 92 {
        lemma_sp_escape(s, i);
    }
}

/// A line-break sequence at `i`: `\r\n`, `\n\r`, `\r` or `\n`, in
/// that priority; the index after it.
pub open spec fn sp_linebreak(s: Seq<u8>, i: int) -> Option<int> {
    if 0 <= i < s.len() && s[i] == 13 {
        if i + 1 < s.len() && s[i + 1] == 10 {
            Some(i + 2)
        } else {
            Some(i + 1)
        }
    } else if 0 <= i < s.len() && s[i] == 10 {
        if i + 1 < s.len() && s[i + 1] == 13 {
            Some(i + 2)
        } else {
            Some(i + 1)
        }
    } else {
        None
    }
}

/// The first index at or after `i` that does not hold `=`.
pub open spec fn sp_eq_end(s: Seq<u8>, i: int) -> int
    decreases s.len() - i,
{
    if 0 <= i < s.len() && s[i] == 61 {
        sp_eq_end(s, i + 1)
    } else {
        i
    }
}

/// An equals-sign run stays within bounds.
pub proof fn lemma_sp_eq_end(s: Seq<u8>, i: int)
    requires
        0 <= i <= s.len(),
    ensures
        i <= sp_eq_end(s, i) <= s.len(),
    decreases s.len() - i,
{
    if i < s.len() && s[i] == 61 {
        lemma_sp_eq_end(s, i + 1);
    }
}

/// A level-`k` long-bracket closer appears at `e`.
pub open spec fn sp_close_at(s: Seq<u8>, e: int, k: int) -> bool {
    &&& 0 <= e
    &&& e + k + 2 <= s.len()
    &&& s[e] == 93
    &&& forall|t: int| e + 1 <= t < e + 1 + k ==> s[t] == 61
    &&& s[e + 1 + k] == 93
}

/// The first index at or after `b` holding a level-`k` closer.
pub open spec fn sp_find_close(s: Seq<u8>, b: int, k: int) -> Option<int>
    decreases s.len() - b,
{
    if b < 0 || b >= s.len() {
        None
    } else if sp_close_at(s, b, k) {
        Some(b)
    } else {
        sp_find_close(s, b + 1, k)
    }
}

/// A found closer lies within bounds.
pub proof fn lemma_sp_find_close(s: Seq<u8>, b: int, k: int)
    requires
        0 <= b,
        0 <= k,
    ensures
        sp_find_close(s, b, k) matches Some(e) ==> b <= e && e + k + 2 <= s.len(),
    decreases s.len() - b,
{
    if b < s.len() && !sp_close_at(s, b, k) {
        lemma_sp_find_close(s, b + 1, k);
    }
}

/// A long-bracket string at `i`: `[`, a run of `k` equals signs, `[`,
/// an optional discarded line break, the verbatim body, and the
/// matching closer.  Yields the body bytes and the index after the
/// closer.
pub open spec fn sp_longstr(s: Seq<u8>, i: int) -> Option<(Seq<u8>, int)> {
    if 0 <= i < s.len() && s[i] == 91 {
        let ke = sp_eq_end(s, i + 1);
        let k = ke - (i + 1);
        if ke < s.len() && s[ke] == 91 {
            let b0 = ke + 1;
            let b = match sp_linebreak(s, b0) {
                Some(p) => p,
                None => b0,
            };
            match sp_find_close(s, b, k) {
                Some(e) => Some((s.subrange(b, e), e + k + 2)),
                None => None,
            }
        } else {
            None
        }
    } else {
        None
    }
}

/// A string at `i`: single-quoted, double-quoted, or long-bracket.
pub open spec fn sp_string(s: Seq<u8>, i: int) -> SpRes<Seq<u8>> {
    if 0 <= i < s.len() && s[i] == 39 {
        sp_qstr(s, i + 1, 39)
    } else if 0 <= i < s.len() && s[i] == 34 {
        sp_qstr(s, i + 1, 34)
    } else if 0 <= i < s.len() && s[i] == 91 {
        match sp_longstr(s, i) {
            Some((b, e)) => SpRes::Found(b, e),
            None => SpRes::Fail,
        }
    } else {
        SpRes::Fail
    }
}

/// An escape result never moves backwards nor past the end.
pub proof fn lemma_sp_escape(s: Seq<u8>, i: int)
    requires
        0 <= i <= s.len(),
    ensures
        sp_escape(s, i) matches SpRes::Found(bs, p) ==> i + 2 <= p <= s.len(),
{
    if i + 1 < s.len() {
        lemma_sp_ws(s, i + 2);
        lemma_sp_dec_end(s, i + 1);
        lemma_sp_dec_end(s, i + 2);
        if i + 3 <= s.len() {
            lemma_sp_hex_end(s, i + 3);
        }
    }
}

/// Encodes a code point in RFC 2279 form, following Lua's encoder.
fn utf8esc_rec(cp: u32, mfb: u32, out: &mut Vec<u8>)
    requires
        mfb == 0x3f && cp <= 0x7FFF_FFFF || mfb == 0x1f && cp <= 0x1FF_FFFF || mfb == 0xf && cp
            <= 0x7_FFFF || mfb == 7 && cp <= 0x1FFF || mfb == 3 && cp <= 0x7F || mfb == 1 && cp
            <= 1,
    ensures
        final(out)@ == old(out)@ + sp_utf8esc_rec(cp as nat, mfb as nat),
    decreases cp,
{
    if cp <= mfb {
        let lead: u8 = (254 - 2 * mfb + cp) as u8;
        out.push(lead);
        proof {
            assert(old(out)@ + sp_utf8esc_rec(cp as nat, mfb as nat) =~= old(out)@.push(lead));
        }
    } else {
        assert(mfb >= 1);
        let tail: u8 = (128 + cp % 64) as u8;
        utf8esc_rec(cp / 64, mfb / 2, out);
        out.push(tail);
        proof {
            assert(old(out)@ + sp_utf8esc_rec(cp as nat, mfb as nat) =~= (old(out)@
                + sp_utf8esc_rec((cp / 64) as nat, (mfb / 2) as nat)).push(tail));
        }
    }
}

/// The bytes of a `\u{...}` escape value.
fn utf8esc(cp: u32) -> (r: Vec<u8>)
    requires
        cp <= 0x7FFF_FFFF,
    ensures
        r@ == sp_utf8esc(cp as nat),
        1 <= r@.len(),
{
    let mut out: Vec<u8> = Vec::new();
    if cp < 0x80 {
        out.push(cp as u8);
        proof {
            assert(out@ =~= sp_utf8esc(cp as nat));
        }
    } else {
        utf8esc_rec(cp, 0x3f, &mut out);
        proof {
            lemma_utf8esc_rec_len(cp as nat, 0x3f);
        }
    }
    out
}

/// The RFC 2279 encoding is never empty.
proof fn lemma_utf8esc_rec_len(cp: nat, mfb: nat)
    ensures
        sp_utf8esc_rec(cp, mfb).len() >= 1,
    decreases cp,
{
    if cp > mfb {
        lemma_utf8esc_rec_len(cp / 64, mfb / 2);
    }
}

/// Folds the digits of a `\u{...}` escape, saturating.
fn u_fold(s: &[u8], from: usize, to: usize) -> (r: u64)
    requires
        from <= to <= s@.len(),
        forall|t: int| from <= t < to ==> is_hex_digit(#[trigger] s@[t]),
    ensures
        r == sp_u_fold(s@.subrange(from as int, to as int), 0),
{
    let mut acc: u64 = 0;
    let mut j: usize = from;
    while j < to
        invariant
            from <= j <= to <= s@.len(),
            forall|t: int| from <= t < to ==> is_hex_digit(#[trigger] s@[t]),
            acc <= 16 * 0x8000_0000 + 15,
            sp_u_fold(s@.subrange(j as int, to as int), acc as nat) == sp_u_fold(
                s@.subrange(from as int, to as int),
                0,
            ),
        decreases to - j,
    {
        proof {
            assert(s@.subrange(j as int, to as int).drop_first() =~= s@.subrange(
                j as int + 1,
                to as int,
            ));
            assert(s@.subrange(j as int, to as int)[0] == s@[j as int]);
            assert(is_hex_digit(s@[j as int]));
        }
        let c: u8 = s[j];
        let d: u32 = if 48 <= c && c <= 57 {
            (c - 48) as u32
        } else if 97 <= c && c <= 102 {
            (c - 97) as u32 + 10
        } else {
            (c - 65) as u32 + 10
        };
        assert(d == spec_hex_digit(c));
        if acc >= 0x8000_0000 {
            acc = 0x8000_0000;
        } else {
            acc = acc * 16 + d as u64;
        }
        j += 1;
    }
    proof {
        assert(s@.subrange(to as int, to as int).len() == 0);
    }
    acc
}

/// Decodes the escape sequence whose backslash sits at `i`, giving
/// the produced bytes and the index after the sequence.  Bytes that
/// exist verbatim in the input are borrowed from it.
fn escape<'a>(s: &'a [u8], i: usize) -> (r: Result<(LuaStr<'a>, usize), ()>)
    requires
        i < s@.len(),
        s@[i as int] == 92,
    ensures
        r matches Ok((piece, p)) ==> sp_escape(s@, i as int) == SpRes::Found(piece@, p as int) && i
            < p <= s@.len(),
        r is Err ==> sp_escape(s@, i as int) matches SpRes::Abort(AbortKind::Escape),
{
    let n: usize = s.len();
    if i + 1 >= n {
        return Err(());
    }
    let c: u8 = s[i + 1];
    proof {
        lemma_sp_escape(s@, i as int);
    }
    if c == 97 {
        {
            let piece = LuaStr::Owned(vec![7u8]);
            proof {
                assert(piece@ =~= seq![7u8]);
            }
            Ok((piece, i + 2))
        }
    } else if c == 98 {
        {
            let piece = LuaStr::Owned(vec![8u8]);
            proof {
                assert(piece@ =~= seq![8u8]);
            }
            Ok((piece, i + 2))
        }
    } else if c == 102 {
        {
            let piece = LuaStr::Owned(vec![12u8]);
            proof {
                assert(piece@ =~= seq![12u8]);
            }
            Ok((piece, i + 2))
        }
    } else if c == 110 {
        {
            let piece = LuaStr::Owned(vec![10u8]);
            proof {
                assert(piece@ =~= seq![10u8]);
            }
            Ok((piece, i + 2))
        }
    } else if c == 114 {
        {
            let piece = LuaStr::Owned(vec![13u8]);
            proof {
                assert(piece@ =~= seq![13u8]);
            }
            Ok((piece, i + 2))
        }
    } else if c == 116 {
        {
            let piece = LuaStr::Owned(vec![9u8]);
            proof {
                assert(piece@ =~= seq![9u8]);
            }
            Ok((piece, i + 2))
        }
    } else if c == 118 {
        {
            let piece = LuaStr::Owned(vec![11u8]);
            proof {
                assert(piece@ =~= seq![11u8]);
            }
            Ok((piece, i + 2))
        }
    } else if c == 92 || c == 34 || c == 39 {
        let piece = LuaStr::Borrowed(&s[i + 1..i + 2]);
        proof {
            assert(piece@ =~= seq![c]);
        }
        Ok((piece, i + 2))
    } else if c == 13 {
        if i + 2 < n && s[i + 2] == 10 {
            let piece = LuaStr::Borrowed(&s[i + 1..i + 3]);
            proof {
                assert(piece@ =~= seq![13u8, 10u8]);
            }
            Ok((piece, i + 3))
        } else {
            let piece = LuaStr::Borrowed(&s[i + 1..i + 2]);
            proof {
                assert(piece@ =~= seq![13u8]);
            }
            Ok((piece, i + 2))
        }
    } else if c == 10 {
        if i + 2 < n && s[i + 2] == 13 {
            let piece = LuaStr::Borrowed(&s[i + 1..i + 3]);
            proof {
                assert(piece@ =~= seq![10u8, 13u8]);
            }
            Ok((piece, i + 3))
        } else {
            let piece = LuaStr::Borrowed(&s[i + 1..i + 2]);
            proof {
                assert(piece@ =~= seq![10u8]);
            }
            Ok((piece, i + 2))
        }
    } else if c == 122 {
        let p = skip_ws(s, i + 2);
        let piece = LuaStr::Borrowed(&s[i..i]);
        proof {
            assert(piece@ =~= Seq::<u8>::empty());
        }
        Ok((piece, p))
    } else if c == 120 {
        if n - i >= 4 {
            let h1: u8 = s[i + 2];
            let h2: u8 = s[i + 3];
            let d1: u32 = if 48 <= h1 && h1 <= 57 {
                (h1 - 48) as u32
            } else if 97 <= h1 && h1 <= 102 {
                (h1 - 97) as u32 + 10
            } else if 65 <= h1 && h1 <= 70 {
                (h1 - 65) as u32 + 10
            } else {
                16
            };
            let d2: u32 = if 48 <= h2 && h2 <= 57 {
                (h2 - 48) as u32
            } else if 97 <= h2 && h2 <= 102 {
                (h2 - 97) as u32 + 10
            } else if 65 <= h2 && h2 <= 70 {
                (h2 - 65) as u32 + 10
            } else {
                16
            };
            assert(d1 == spec_hex_digit(h1));
            assert(d2 == spec_hex_digit(h2));
            if d1 < 16 && d2 < 16 {
                {
                    let piece = LuaStr::Owned(vec![(d1 * 16 + d2) as u8]);
                    proof {
                        assert(piece@ =~= seq![(d1 * 16 + d2) as u8]);
                    }
                    Ok((piece, i + 4))
                }
            } else {
                Err(())
            }
        } else {
            Err(())
        }
    } else if 48 <= c && c <= 57 {
        let de = scan_dec(s, i + 1);
        let de3: usize = if de - i > 4 {
            i + 4
        } else {
            de
        };
        let v = dec_cap_fold(s, i + 1, de3);
        if v <= 255 {
            {
                let piece = LuaStr::Owned(vec![v as u8]);
                proof {
                    assert(piece@ =~= seq![v as u8]);
                }
                Ok((piece, de3))
            }
        } else {
            Err(())
        }
    } else if c == 117 {
        if i + 2 < n && s[i + 2] == 123 {
            let he = scan_hex(s, i + 3);
            if he == i + 3 {
                Err(())
            } else if he < n && s[he] == 125 {
                let v = u_fold(s, i + 3, he);
                if v <= 0x7FFF_FFFF {
                    let bytes = utf8esc(v as u32);
                    let piece = LuaStr::Owned(bytes);
                    Ok((piece, he + 1))
                } else {
                    Err(())
                }
            } else {
                Err(())
            }
        } else {
            Err(())
        }
    } else {
        Err(())
    }
}

/// The bytes of a list of string spans, in order.
pub open spec fn spans_bytes(spans: Seq<Seq<u8>>) -> Seq<u8>
    decreases spans.len(),
{
    if spans.len() == 0 {
        Seq::empty()
    } else {
        spans[0] + spans_bytes(spans.drop_first())
    }
}

/// Appending a span appends its bytes.
pub proof fn lemma_spans_bytes_push(spans: Seq<Seq<u8>>, x: Seq<u8>)
    ensures
        spans_bytes(spans.push(x)) == spans_bytes(spans) + x,
    decreases spans.len(),
{
    if spans.len() == 0 {
        assert(spans.push(x).drop_first() =~= Seq::<Seq<u8>>::empty());
        assert(spans.push(x)[0] == x);
        assert(spans_bytes(Seq::<Seq<u8>>::empty()) =~= Seq::<u8>::empty());
        assert(spans_bytes(spans.push(x)) =~= x + Seq::<u8>::empty());
        assert(spans_bytes(spans.push(x)) =~= spans_bytes(spans) + x);
    } else {
        assert(spans.push(x).drop_first() =~= spans.drop_first().push(x));
        lemma_spans_bytes_push(spans.drop_first(), x);
        assert(spans_bytes(spans.push(x)) =~= spans_bytes(spans) + x);
    }
}

/// The model of a vector of string spans.
pub open spec fn spans_model(v: Seq<LuaStr>) -> Seq<Seq<u8>> {
    Seq::new(v.len(), |i: int| if 0 <= i < v.len() { v[i]@ } else { Seq::empty() })
}

/// Merges zero or more string spans into a single string.
///
/// An empty list yields an empty owned string; exactly one span is
/// returned as it stands, without copying; several spans are joined
/// into one owned buffer.
pub fn merge_spans<'a>(s: Vec<LuaStr<'a>>) -> (r: LuaStr<'a>)
    ensures
        r@ == spans_bytes(spans_model(s@)),
        s@.len() == 1 ==> r == s@[0],
{
    let m: usize = s.len();
    if m == 0 {
        let r = LuaStr::Owned(Vec::new());
        proof {
            assert(r@ =~= spans_bytes(spans_model(s@)));
        }
        return r;
    }
    let mut v = s;
    if m == 1 {
        let r = v.remove(0);
        proof {
            assert(spans_model(s@) =~= seq![r@]);
            assert(spans_bytes(seq![r@]).len() == (seq![r@][0] + spans_bytes(
                seq![r@].drop_first(),
            )).len());
            assert(spans_bytes(seq![r@]) =~= r@ + spans_bytes(seq![r@].drop_first()));
            assert(seq![r@].drop_first() =~= Seq::<Seq<u8>>::empty());
            assert(spans_bytes(seq![r@]) =~= r@);
        }
        return r;
    }
    let mut o: Vec<u8> = Vec::new();
    let mut i: usize = 0;
    proof {
        assert(v@.take(0) =~= Seq::<LuaStr>::empty());
        assert(spans_model(Seq::<LuaStr>::empty()) =~= Seq::<Seq<u8>>::empty());
        assert(spans_bytes(Seq::<Seq<u8>>::empty()) =~= Seq::<u8>::empty());
        assert(v@.skip(0) =~= v@);
        assert(Seq::<u8>::empty() + spans_bytes(spans_model(v@)) =~= spans_bytes(spans_model(v@)));
    }
    while i < m
        invariant
            v@ == s@,
            m == v@.len(),
            0 <= i <= m,
            o@ == spans_bytes(spans_model(v@.take(i as int))),
            spans_bytes(spans_model(v@)) == spans_bytes(spans_model(v@.take(i as int)))
                + spans_bytes(spans_model(v@.skip(i as int))),
        decreases m - i,
    {
        proof {
            assert(spans_model(v@.take(i as int + 1)) =~= spans_model(v@.take(i as int)).push(
                v@[i as int]@,
            ));
            lemma_spans_bytes_push(spans_model(v@.take(i as int)), v@[i as int]@);
            assert(spans_model(v@.skip(i as int)).drop_first() =~= spans_model(
                v@.skip(i as int + 1),
            ));
            assert(spans_model(v@.skip(i as int))[0] == v@[i as int]@);
            assert(spans_bytes(spans_model(v@.skip(i as int))) =~= v@[i as int]@ + spans_bytes(
                spans_model(v@.skip(i as int + 1)),
            ));
            assert((spans_bytes(spans_model(v@.take(i as int))) + (v@[i as int]@ + spans_bytes(
                spans_model(v@.skip(i as int + 1)),
            ))) =~= (spans_bytes(spans_model(v@.take(i as int))) + v@[i as int]@) + spans_bytes(
                spans_model(v@.skip(i as int + 1)),
            ));
        }
        let piece_len = v[i].len();
        push_range(&mut o, v[i].as_bytes(), 0, piece_len);
        proof {
            assert(v@[i as int]@.subrange(0, v@[i as int]@.len() as int) =~= v@[i as int]@);
        }
        i += 1;
    }
    proof {
        assert(v@.take(m as int) =~= v@);
    }
    LuaStr::Owned(o)
}

/// No byte of `[a, b)` ends or breaks a quoted-string body.
pub open spec fn sp_plain_run(s: Seq<u8>, a: int, b: int, q: u8) -> bool {
    forall|t: int| a <= t < b ==> s[t] != q && s[t] != 92 && s[t] != 13 && s[t] != 10
}

/// A quoted-string body beginning with a plain run parses as that
/// run followed by the rest of the body.
pub proof fn lemma_qstr_run(s: Seq<u8>, a: int, b: int, q: u8)
    requires
        0 <= a <= b <= s.len(),
        sp_plain_run(s, a, b, q),
    ensures
        sp_qstr(s, a, q) == (match sp_qstr(s, b, q) {
            SpRes::Found(rest, e) => SpRes::Found(s.subrange(a, b) + rest, e),
            SpRes::Fail => SpRes::Fail,
            SpRes::Abort(k) => SpRes::Abort(k),
        }),
    decreases b - a,
{
    if a == b {
        match sp_qstr(s, b, q) {
            SpRes::Found(rest, e) => {
                assert(s.subrange(a, b) + rest =~= rest);
            },
            _ => {},
        }
    } else {
        lemma_qstr_run(s, a + 1, b, q);
        match sp_qstr(s, b, q) {
            SpRes::Found(rest, e) => {
                assert(seq![s[a]] + (s.subrange(a + 1, b) + rest) =~= s.subrange(a, b) + rest);
            },
            _ => {},
        }
    }
}

/// Parses the body of a quoted string from `start` (just after the
/// opening quote) with terminator `q`, assembling the decoded spans.
/// A body without a backslash comes back borrowed from the input.
pub fn qstr<'a>(s: &'a [u8], start: usize, q: u8) -> (r: Result<(LuaStr<'a>, usize), LuaError>)
    requires
        start <= s@.len(),
    ensures
        r matches Ok((t, p)) ==> sp_qstr(s@, start as int, q) == SpRes::Found(t@, p as int)
            && start < p <= s@.len(),
        r matches Ok((t, p)) ==> (sp_plain_run(s@, start as int, p - 1, q) ==> t is Borrowed),
        r matches Err(e) ==> (e matches LuaError::InvalidEscape { .. } && sp_qstr(
            s@,
            start as int,
            q,
        ) matches SpRes::Abort(AbortKind::Escape)) || (e matches LuaError::GrammarError { .. }
            && sp_qstr(s@, start as int, q) is Fail),
{
    let n: usize = s.len();
    let mut spans: Vec<LuaStr<'a>> = Vec::new();
    let mut pos: usize = start;
    let mut plain: bool = true;
    proof {
        assert(spans_model(spans@) =~= Seq::<Seq<u8>>::empty());
        assert(spans_bytes(Seq::<Seq<u8>>::empty()) =~= Seq::<u8>::empty());
        if let SpRes::Found(rest, e) = sp_qstr(s@, start as int, q) {
            assert(Seq::<u8>::empty() + rest =~= rest);
        }
    }
    loop
        invariant
            start <= pos <= n,
            n == s@.len(),
            sp_qstr(s@, start as int, q) == (match sp_qstr(s@, pos as int, q) {
                SpRes::Found(rest, e) => SpRes::Found(
                    spans_bytes(spans_model(spans@)) + rest,
                    e,
                ),
                SpRes::Fail => SpRes::Fail,
                SpRes::Abort(k) => SpRes::Abort(k),
            }),
            plain == sp_plain_run(s@, start as int, pos as int, q),
            plain ==> (spans@.len() == 0 && pos == start || spans@.len() == 1 && spans@[0]
                is Borrowed && pos > start),
            plain && spans@.len() == 1 ==> (pos == n || s@[pos as int] == q || s@[pos as int]
                == 92 || s@[pos as int] == 13 || s@[pos as int] == 10),
        decreases n - pos,
    {
        if pos >= n {
            return Err(LuaError::GrammarError { at: pos });
        }
        let c: u8 = s[pos];
        if c == q {
            proof {
                if spans@.len() == 1 {
                    assert(spans_bytes(spans_model(spans@)) =~= spans@[0]@ + spans_bytes(
                        spans_model(spans@).drop_first(),
                    ));
                    assert(spans_model(spans@).drop_first() =~= Seq::<Seq<u8>>::empty());
                    assert(spans_bytes(spans_model(spans@)) =~= spans@[0]@);
                }
                assert(spans_bytes(spans_model(spans@)) + Seq::<u8>::empty() =~= spans_bytes(
                    spans_model(spans@),
                ));
            }
            if spans.len() == 0 {
                let t = LuaStr::Borrowed(&s[pos..pos]);
                proof {
                    assert(t@ =~= Seq::<u8>::empty());
                    assert(spans_bytes(spans_model(spans@)) =~= Seq::<u8>::empty());
                }
                return Ok((t, pos + 1));
            }
            let t = merge_spans(spans);
            return Ok((t, pos + 1));
        }
        if c == 13 || c == 10 {
            return Err(LuaError::GrammarError { at: pos });
        }
        if c == 92 {
            match escape(s, pos) {
                Ok((piece, p)) => {
                    proof {
                        lemma_spans_bytes_push(spans_model(spans@), piece@);
                        assert(spans_model(spans@.push(piece)) =~= spans_model(spans@).push(
                            piece@,
                        ));
                        match sp_qstr(s@, p as int, q) {
                            SpRes::Found(rest, e) => {
                                assert((spans_bytes(spans_model(spans@)) + piece@) + rest
                                    =~= spans_bytes(spans_model(spans@)) + (piece@ + rest));
                            },
                            _ => {},
                        }
                    }
                    spans.push(piece);
                    proof {
                        assert(s@[pos as int] == 92);
                        assert(!sp_plain_run(s@, start as int, p as int, q));
                    }
                    pos = p;
                    plain = false;
                },
                Err(()) => {
                    return Err(LuaError::InvalidEscape { at: pos });
                },
            }
        } else {
            // a plain literal run up to the next special byte
            let mut r: usize = pos + 1;
            while r < n && s[r] != q && s[r] != 92 && s[r] != 13 && s[r] != 10
                invariant
                    pos < r <= n,
                    n == s@.len(),
                    sp_plain_run(s@, pos as int, r as int, q),
                decreases n - r,
            {
                r += 1;
            }
            let piece = LuaStr::Borrowed(&s[pos..r]);
            proof {
                lemma_qstr_run(s@, pos as int, r as int, q);
                lemma_spans_bytes_push(spans_model(spans@), piece@);
                assert(spans_model(spans@.push(piece)) =~= spans_model(spans@).push(piece@));
                match sp_qstr(s@, r as int, q) {
                    SpRes::Found(rest, e) => {
                        assert((spans_bytes(spans_model(spans@)) + piece@) + rest =~= spans_bytes(
                            spans_model(spans@),
                        ) + (piece@ + rest));
                    },
                    _ => {},
                }
            }
            spans.push(piece);
            proof {
                if !plain {
                    assert(!sp_plain_run(s@, start as int, r as int, q));
                }
            }
            pos = r;
        }
    }
}

/// Matches a line break at `i`.
pub fn linebreak_at(s: &[u8], i: usize) -> (r: Option<usize>)
    requires
        i <= s@.len(),
    ensures
        r matches Some(p) ==> sp_linebreak(s@, i as int) == Some(p as int) && i < p <= s@.len(),
        r is None ==> sp_linebreak(s@, i as int) is None,
{
    let n: usize = s.len();
    if i < n && s[i] == 13 {
        if i + 1 < n && s[i + 1] == 10 {
            Some(i + 2)
        } else {
            Some(i + 1)
        }
    } else if i < n && s[i] == 10 {
        if i + 1 < n && s[i + 1] == 13 {
            Some(i + 2)
        } else {
            Some(i + 1)
        }
    } else {
        None
    }
}

/// Parses a long-bracket string at `i`; the body borrows from the
/// input.
pub fn longstr<'a>(s: &'a [u8], i: usize) -> (r: Option<(LuaStr<'a>, usize)>)
    requires
        i <= s@.len(),
    ensures
        r matches Some((t, p)) ==> sp_longstr(s@, i as int) == Some((t@, p as int)) && i < p
            <= s@.len() && t is Borrowed,
        r is None ==> sp_longstr(s@, i as int) is None,
{
    let n: usize = s.len();
    if i >= n || s[i] != 91 {
        return None;
    }
    // count the equals signs of the opener
    let mut ke: usize = i + 1;
    while ke < n && s[ke] == 61
        invariant
            i + 1 <= ke <= n,
            n == s@.len(),
            sp_eq_end(s@, i as int + 1) == sp_eq_end(s@, ke as int),
        decreases n - ke,
    {
        ke += 1;
    }
    proof {
        assert(sp_eq_end(s@, ke as int) == ke);
    }
    let k: usize = ke - (i + 1);
    if ke >= n || s[ke] != 91 {
        return None;
    }
    let b0: usize = ke + 1;
    let b: usize = match linebreak_at(s, b0) {
        Some(p) => p,
        None => b0,
    };
    // scan for the matching closer
    let mut e: usize = b;
    loop
        invariant
            b <= e <= n,
            n == s@.len(),
            k + 2 <= n,
            i < n,
            s@[i as int] == 91,
            ke == sp_eq_end(s@, i as int + 1),
            i + 1 <= ke < n,
            s@[ke as int] == 91,
            k == ke - (i + 1),
            b == (match sp_linebreak(s@, ke as int + 1) {
                Some(p) => p,
                None => ke as int + 1,
            }),
            sp_find_close(s@, b as int, k as int) == sp_find_close(s@, e as int, k as int),
        decreases n - e,
    {
        if e >= n {
            proof {
                assert(sp_find_close(s@, e as int, k as int) is None);
            }
            return None;
        }
        if s[e] == 93 && n - e >= k + 2 {
            // check for k equals signs and the final bracket
            let mut t: usize = 0;
            while t < k && s[e + 1 + t] == 61
                invariant
                    0 <= t <= k,
                    e + k + 2 <= n,
                    n == s@.len(),
                    forall|u: int| 0 <= u < t ==> #[trigger] s@[e + 1 + u] == 61,
                decreases k - t,
            {
                t += 1;
            }
            if t == k && s[e + 1 + k] == 93 {
                proof {
                    assert forall|t2: int| e + 1 <= t2 < e + 1 + k implies s@[t2] == 61 by {
                        assert(s@[e + 1 + (t2 - (e as int + 1))] == 61);
                    }
                    assert(sp_close_at(s@, e as int, k as int));
                    assert(sp_find_close(s@, e as int, k as int) == Some(e as int));
                }
                let body = LuaStr::Borrowed(&s[b..e]);
                return Some((body, e + k + 2));
            }
            proof {
                assert(!sp_close_at(s@, e as int, k as int)) by {
                    if sp_close_at(s@, e as int, k as int) {
                        if t < k {
                            assert(s@[e as int + 1 + t] == 61);
                        }
                    }
                }
            }
        } else {
            proof {
                assert(!sp_close_at(s@, e as int, k as int));
            }
        }
        e += 1;
    }
}

/// Parses a string at `i`.
pub fn string_at<'a>(s: &'a [u8], i: usize) -> (r: Result<(LuaStr<'a>, usize), LuaError>)
    requires
        i <= s@.len(),
    ensures
        r matches Ok((t, p)) ==> sp_string(s@, i as int) == SpRes::Found(t@, p as int) && i < p
            <= s@.len(),
        r matches Err(e) ==> (e matches LuaError::InvalidEscape { .. } && sp_string(
            s@,
            i as int,
        ) matches SpRes::Abort(AbortKind::Escape)) || (e matches LuaError::GrammarError { .. }
            && sp_string(s@, i as int) is Fail),
{
    let n: usize = s.len();
    if i < n && s[i] == 39 {
        qstr(s, i + 1, 39)
    } else if i < n && s[i] == 34 {
        qstr(s, i + 1, 34)
    } else if i < n && s[i] == 91 {
        match longstr(s, i) {
            Some((t, p)) => Ok((t, p)),
            None => Err(LuaError::GrammarError { at: i }),
        }
    } else {
        Err(LuaError::GrammarError { at: i })
    }
}

/// The larger of two indices; keeps the grammar's recursion measure
/// well-founded (every production consumes at least one byte, so the
/// clamp never changes a reachable result).
pub open spec fn imax(a: int, b: int) -> int {
    if a >= b {
        a
    } else {
        b
    }
}

/// The end of an identifier run starting at `j`, or `j` when none
/// starts there.
pub open spec fn sp_ident_end(s: Seq<u8>, j: int) -> int
    decreases s.len() - j,
{
    if 0 <= j < s.len() && is_ident_byte(s[j]) {
        sp_ident_end(s, j + 1)
    } else {
        j
    }
}

/// An identifier run stays within bounds.
pub proof fn lemma_sp_ident_end(s: Seq<u8>, j: int)
    requires
        0 <= j <= s.len(),
    ensures
        j <= sp_ident_end(s, j) <= s.len(),
        forall|t: int| j <= t < sp_ident_end(s, j) ==> is_ident_byte(#[trigger] s[t]),
    decreases s.len() - j,
{
    if j < s.len() && is_ident_byte(s[j]) {
        lemma_sp_ident_end(s, j + 1);
    }
}

/// The token `nil`.
pub open spec fn nil_lit() -> Seq<u8> {
    seq![110u8, 105u8, 108u8]
}

/// The token `true`.
pub open spec fn true_lit() -> Seq<u8> {
    seq![116u8, 114u8, 117u8, 101u8]
}

/// The token `false`.
pub open spec fn false_lit() -> Seq<u8> {
    seq![102u8, 97u8, 108u8, 115u8, 101u8]
}

/// A value expression at `i` with depth budget `d`, leading and
/// trailing whitespace consumed: `nil`, a boolean, a numeral, a
/// string, or a table constructor.
pub open spec fn sp_value(s: Seq<u8>, i: int, d: nat) -> SpRes<ValModel>
    decreases s.len() - imax(i, 0), 3nat, d,
    via sp_value_dec
{
    let j = sp_ws(s, i);
    if sp_lit_at(s, j, nil_lit()) {
        SpRes::Found(ValModel::Nil, sp_ws(s, j + 3))
    } else if sp_lit_at(s, j, true_lit()) {
        SpRes::Found(ValModel::Bool(true), sp_ws(s, j + 4))
    } else if sp_lit_at(s, j, false_lit()) {
        SpRes::Found(ValModel::Bool(false), sp_ws(s, j + 5))
    } else {
        match sp_numeral(s, j) {
            Some((num, p)) => SpRes::Found(ValModel::Num(num), sp_ws(s, imax(p, j))),
            None => match sp_string(s, j) {
                SpRes::Found(bytes, p) => SpRes::Found(ValModel::Str(bytes), sp_ws(s, imax(p, j))),
                SpRes::Abort(k) => SpRes::Abort(k),
                SpRes::Fail => {
                    if 0 <= j < s.len() && s[j] == 123 {  // '{'
                        if d == 0 {
                            SpRes::Abort(AbortKind::Depth)
                        } else {
                            match sp_entries(s, j + 1, (d - 1) as nat) {
                                SpRes::Found(list, p) => {
                                    let q = sp_ws(s, imax(p, j + 1));
                                    let q2 = if 0 <= q < s.len() && (s[q] == 44 || s[q] == 59) {
                                        sp_ws(s, q + 1)
                                    } else {
                                        q
                                    };
                                    if 0 <= q2 < s.len() && s[q2] == 125 {  // '}'
                                        SpRes::Found(ValModel::Table(list), sp_ws(s, q2 + 1))
                                    } else {
                                        SpRes::Fail
                                    }
                                },
                                SpRes::Abort(k) => SpRes::Abort(k),
                                SpRes::Fail => SpRes::Fail,
                            }
                        }
                    } else {
                        SpRes::Fail
                    }
                },
            },
        }
    }
}

#[via_fn]
proof fn sp_value_dec(s: Seq<u8>, i: int, d: nat) {
    if 0 <= i <= s.len() {
        lemma_sp_ws(s, i);
    } else {
        assert(sp_ws(s, i) == i);
    }
}

/// The `[key] = value` alternative of a table entry, at `j` (after
/// leading whitespace).
pub open spec fn sp_entry_keyed(s: Seq<u8>, j: int, d: nat) -> SpRes<EntryModel>
    decreases s.len() - imax(j, 0), 2nat, d,
{
    if 0 <= j < s.len() && s[j] == 91 {  // '['
        match sp_value(s, j + 1, d) {
            SpRes::Found(k, p) => {
                let q = imax(p, j + 2);
                if 0 <= q < s.len() && s[q] == 93 {  // ']'
                    let r = sp_ws(s, q + 1);
                    if 0 <= r < s.len() && s[r] == 61 {  // '='
                        match sp_value(s, imax(r + 1, j + 3), d) {
                            SpRes::Found(v, p2) => SpRes::Found(EntryModel::Keyed(k, v), p2),
                            SpRes::Abort(kk) => SpRes::Abort(kk),
                            SpRes::Fail => SpRes::Fail,
                        }
                    } else {
                        SpRes::Fail
                    }
                } else {
                    SpRes::Fail
                }
            },
            SpRes::Abort(kk) => SpRes::Abort(kk),
            SpRes::Fail => SpRes::Fail,
        }
    } else {
        SpRes::Fail
    }
}

/// The `name = value` alternative of a table entry, at `j`.
pub open spec fn sp_entry_named(s: Seq<u8>, j: int, d: nat) -> SpRes<EntryModel>
    decreases s.len() - imax(j, 0), 2nat, d,
    via sp_entry_named_dec
{
    if 0 <= j < s.len() && is_ident_start_byte(s[j]) {
        let e = sp_ident_end(s, j);
        let word = s.subrange(j, e);
        if is_reserved_word(word) {
            SpRes::Fail
        } else {
            let r = sp_ws(s, e);
            if 0 <= r < s.len() && s[r] == 61 {
                match sp_value(s, imax(r + 1, j + 1), d) {
                    SpRes::Found(v, p2) => SpRes::Found(EntryModel::Named(word, v), p2),
                    SpRes::Abort(kk) => SpRes::Abort(kk),
                    SpRes::Fail => SpRes::Fail,
                }
            } else {
                SpRes::Fail
            }
        }
    } else {
        SpRes::Fail
    }
}

#[via_fn]
proof fn sp_entry_named_dec(s: Seq<u8>, j: int, d: nat) {
    if 0 <= j < s.len() && is_ident_start_byte(s[j]) {
        lemma_sp_ident_end(s, j);
        lemma_sp_ws(s, sp_ident_end(s, j));
    }
}

/// A table entry at `i`: a `[key] = value` pair, a `name = value`
/// pair, or a bare value, tried in that order.
pub open spec fn sp_entry(s: Seq<u8>, i: int, d: nat) -> SpRes<EntryModel>
    decreases s.len() - imax(i, 0), 4nat, d,
    via sp_entry_dec
{
    let j = sp_ws(s, i);
    match sp_entry_keyed(s, j, d) {
        SpRes::Found(e, p) => SpRes::Found(e, p),
        SpRes::Abort(k) => SpRes::Abort(k),
        SpRes::Fail => match sp_entry_named(s, j, d) {
            SpRes::Found(e, p) => SpRes::Found(e, p),
            SpRes::Abort(k) => SpRes::Abort(k),
            SpRes::Fail => match sp_value(s, i, d) {
                SpRes::Found(v, p) => SpRes::Found(EntryModel::Positional(v), p),
                SpRes::Abort(k) => SpRes::Abort(k),
                SpRes::Fail => SpRes::Fail,
            },
        },
    }
}

#[via_fn]
proof fn sp_entry_dec(s: Seq<u8>, i: int, d: nat) {
    if 0 <= i <= s.len() {
        lemma_sp_ws(s, i);
    } else {
        assert(sp_ws(s, i) == i);
    }
}

/// The entry list of a table body starting at `i`: entries separated
/// by `,` or `;`; the result index sits just after the last entry.
pub open spec fn sp_entries(s: Seq<u8>, i: int, d: nat) -> SpRes<Seq<EntryModel>>
    decreases s.len() - imax(i, 0), 5nat, d,
{
    if i < 0 || i >= s.len() {
        if i == s.len() {
            // nothing can start here; an empty entry list
            SpRes::Found(Seq::empty(), i)
        } else {
            SpRes::Fail
        }
    } else {
        match sp_entry(s, i, d) {
            SpRes::Fail => SpRes::Found(Seq::empty(), i),
            SpRes::Abort(k) => SpRes::Abort(k),
            SpRes::Found(e, p) => sp_entries_more(
                s,
                imin(imax(p, i + 1), s.len() as int),
                d,
                seq![e],
            ),
        }
    }
}

/// The smaller of two indices.
pub open spec fn imin(a: int, b: int) -> int {
    if a <= b {
        a
    } else {
        b
    }
}

/// Parses further `sep entry` groups after a first entry ending at
/// `m`, accumulating into `acc`.
pub open spec fn sp_entries_more(s: Seq<u8>, m: int, d: nat, acc: Seq<EntryModel>) -> SpRes<
    Seq<EntryModel>,
>
    decreases s.len() - imax(m, 0), 6nat, d,
    via sp_entries_more_dec
{
    if 0 <= m < s.len() && (s[m] == 44 || s[m] == 59) {  // ',' or ';'
        match sp_entry(s, m + 1, d) {
            SpRes::Fail => SpRes::Found(acc, m),
            SpRes::Abort(k) => SpRes::Abort(k),
            SpRes::Found(e, p) => sp_entries_more(
                s,
                imin(imax(p, m + 2), s.len() as int),
                d,
                acc.push(e),
            ),
        }
    } else {
        SpRes::Found(acc, m)
    }
}

#[via_fn]
proof fn sp_entries_more_dec(s: Seq<u8>, m: int, d: nat, acc: Seq<EntryModel>) {
}

/// How the parse ended when no value came back: a backtrackable
/// mismatch at a position, or a fatal error.
pub enum PFlow {
    /// The production did not match; the position is where it gave
    /// up.
    Back(usize),
    /// The parse stopped for good.
    Died(LuaError),
}

/// The fatal error carrying the given abort kind.
pub open spec fn abort_err(k: AbortKind, e: LuaError) -> bool {
    match k {
        AbortKind::Depth => e is DepthExceeded,
        AbortKind::Escape => e matches LuaError::InvalidEscape { .. },
        AbortKind::Reserved => e matches LuaError::IdentifierReserved { .. },
    }
}

/// Parses a value expression at `i` with depth budget `d`.
pub fn p_value<'a>(s: &'a [u8], i: usize, d: u16) -> (r: Result<(LuaValue<'a>, usize), PFlow>)
    requires
        i <= s@.len(),
    ensures
        r matches Ok((v, p)) ==> sp_value(s@, i as int, d as nat) == SpRes::Found(v@, p as int)
            && i < p <= s@.len(),
        r matches Err(PFlow::Back(_)) ==> sp_value(s@, i as int, d as nat) is Fail,
        r matches Err(PFlow::Died(e)) ==> (sp_value(s@, i as int, d as nat) matches SpRes::Abort(k)
            && abort_err(k, e)),
    decreases s@.len() - i, 3nat, d,
{
    let n: usize = s.len();
    let j = skip_ws(s, i);
    let nil_t: Vec<u8> = vec![110u8, 105u8, 108u8];
    let true_t: Vec<u8> = vec![116u8, 114u8, 117u8, 101u8];
    let false_t: Vec<u8> = vec![102u8, 97u8, 108u8, 115u8, 101u8];
    proof {
        assert(nil_t@ =~= nil_lit());
        assert(true_t@ =~= true_lit());
        assert(false_t@ =~= false_lit());
    }
    if lit_at(s, j, nil_t.as_slice()) {
        let p = skip_ws(s, j + 3);
        return Ok((LuaValue::Nil, p));
    }
    if lit_at(s, j, true_t.as_slice()) {
        let p = skip_ws(s, j + 4);
        return Ok((LuaValue::Boolean(true), p));
    }
    if lit_at(s, j, false_t.as_slice()) {
        let p = skip_ws(s, j + 5);
        return Ok((LuaValue::Boolean(false), p));
    }
    match numeral(s, j) {
        Some((num, p)) => {
            proof {
                assert(imax(p as int, j as int) == p as int);
            }
            let p2 = skip_ws(s, p);
            return Ok((LuaValue::Number(num), p2));
        },
        None => {},
    }
    match string_at(s, j) {
        Ok((t, p)) => {
            proof {
                assert(imax(p as int, j as int) == p as int);
            }
            let p2 = skip_ws(s, p);
            return Ok((LuaValue::String(t), p2));
        },
        Err(e) => {
            match e {
                LuaError::InvalidEscape { at } => {
                    return Err(PFlow::Died(LuaError::InvalidEscape { at }));
                },
                _ => {},
            }
        },
    }
    if j < n && s[j] == 123 {
        if d == 0 {
            return Err(PFlow::Died(LuaError::DepthExceeded));
        }
        match p_entries(s, j + 1, d - 1) {
            Ok((list, p)) => {
                proof {
                    assert(imax(p as int, j as int + 1) == p as int);
                }
                let q = skip_ws(s, p);
                let q2: usize = if q < n && (s[q] == 44 || s[q] == 59) {
                    skip_ws(s, q + 1)
                } else {
                    q
                };
                if q2 < n && s[q2] == 125 {
                    let p3 = skip_ws(s, q2 + 1);
                    let v = LuaValue::Table(list);
                    proof {
                        crate::value::lemma_val_model_table(v->Table_0);
                    }
                    return Ok((v, p3));
                }
                return Err(PFlow::Back(q2));
            },
            Err(f) => {
                return Err(f);
            },
        }
    }
    Err(PFlow::Back(j))
}

/// Parses the `[key] = value` alternative at `j`.
#[verifier::rlimit(100)]
fn p_entry_keyed<'a>(s: &'a [u8], j: usize, d: u16) -> (r: Result<
    (LuaTableEntry<'a>, usize),
    PFlow,
>)
    requires
        j <= s@.len(),
    ensures
        r matches Ok((e, p)) ==> sp_entry_keyed(s@, j as int, d as nat) == SpRes::Found(
            e@,
            p as int,
        ) && j < p <= s@.len(),
        r matches Err(PFlow::Back(_)) ==> sp_entry_keyed(s@, j as int, d as nat) is Fail,
        r matches Err(PFlow::Died(e)) ==> (sp_entry_keyed(s@, j as int, d as nat)
            matches SpRes::Abort(k) && abort_err(k, e)),
    decreases s@.len() - j, 2nat, d,
{
    let n: usize = s.len();
    if !(j < n && s[j] == 91) {
        return Err(PFlow::Back(j));
    }
    match p_value(s, j + 1, d) {
        Ok((k, p1)) => {
            proof {
                assert(imax(p1 as int, j as int + 2) == p1 as int);
            }
            if p1 < n && s[p1] == 93 {
                let rr = skip_ws(s, p1 + 1);
                if rr < n && s[rr] == 61 {
                    proof {
                        assert(imax(rr as int + 1, j as int + 3) == rr as int + 1);
                    }
                    match p_value(s, rr + 1, d) {
                        Ok((v, p2)) => Ok((LuaTableEntry::KeyValue(k, v), p2)),
                        Err(PFlow::Back(b)) => Err(PFlow::Back(b)),
                        Err(PFlow::Died(e)) => Err(PFlow::Died(e)),
                    }
                } else {
                    Err(PFlow::Back(rr))
                }
            } else {
                Err(PFlow::Back(p1))
            }
        },
        Err(PFlow::Back(b)) => Err(PFlow::Back(b)),
        Err(PFlow::Died(e)) => Err(PFlow::Died(e)),
    }
}

/// Parses the `name = value` alternative at `j`.
fn p_entry_named<'a>(s: &'a [u8], j: usize, d: u16) -> (r: Result<
    (LuaTableEntry<'a>, usize),
    PFlow,
>)
    requires
        j <= s@.len(),
    ensures
        r matches Ok((e, p)) ==> sp_entry_named(s@, j as int, d as nat) == SpRes::Found(
            e@,
            p as int,
        ) && j < p <= s@.len(),
        r matches Err(PFlow::Back(_)) ==> sp_entry_named(s@, j as int, d as nat) is Fail,
        r matches Err(PFlow::Died(e)) ==> (sp_entry_named(s@, j as int, d as nat)
            matches SpRes::Abort(k) && abort_err(k, e)),
    decreases s@.len() - j, 2nat, d,
{
    let n: usize = s.len();
    if !(j < n && ident_start_at(s, j)) {
        return Err(PFlow::Back(j));
    }
    let e = scan_ident(s, j);
    if crate::is_reserved(&s[j..e]) {
        return Err(PFlow::Back(j));
    }
    let rr = skip_ws(s, e);
    if !(rr < n && s[rr] == 61) {
        return Err(PFlow::Back(rr));
    }
    proof {
        assert(imax(rr as int + 1, j as int + 1) == rr as int + 1);
    }
    match p_value(s, rr + 1, d) {
        Ok((v, p2)) => {
            let name = LuaStr::Borrowed(&s[j..e]);
            Ok((LuaTableEntry::NameValue(name, v), p2))
        },
        Err(PFlow::Back(b)) => Err(PFlow::Back(b)),
        Err(PFlow::Died(err)) => Err(PFlow::Died(err)),
    }
}

/// Parses a table entry at `i`.
pub fn p_entry<'a>(s: &'a [u8], i: usize, d: u16) -> (r: Result<
    (LuaTableEntry<'a>, usize),
    PFlow,
>)
    requires
        i <= s@.len(),
    ensures
        r matches Ok((e, p)) ==> sp_entry(s@, i as int, d as nat) == SpRes::Found(e@, p as int)
            && i < p <= s@.len(),
        r matches Err(PFlow::Back(_)) ==> sp_entry(s@, i as int, d as nat) is Fail,
        r matches Err(PFlow::Died(e)) ==> (sp_entry(s@, i as int, d as nat) matches SpRes::Abort(k)
            && abort_err(k, e)),
    decreases s@.len() - i, 4nat, d,
{
    let j = skip_ws(s, i);
    match p_entry_keyed(s, j, d) {
        Ok((e, p)) => {
            return Ok((e, p));
        },
        Err(PFlow::Died(e)) => {
            return Err(PFlow::Died(e));
        },
        Err(PFlow::Back(_)) => {},
    }
    match p_entry_named(s, j, d) {
        Ok((e, p)) => {
            return Ok((e, p));
        },
        Err(PFlow::Died(e)) => {
            return Err(PFlow::Died(e));
        },
        Err(PFlow::Back(_)) => {},
    }
    match p_value(s, i, d) {
        Ok((v, p)) => {
            let entry = match v {
                LuaValue::Nil => LuaTableEntry::NilValue,
                LuaValue::Boolean(b) => LuaTableEntry::BooleanValue(b),
                LuaValue::Number(num) => LuaTableEntry::NumberValue(num),
                other => LuaTableEntry::Value(other),
            };
            Ok((entry, p))
        },
        Err(f) => Err(f),
    }
}

/// Tests for an identifier start byte at `j`.
fn ident_start_at(s: &[u8], j: usize) -> (r: bool)
    requires
        j < s@.len(),
    ensures
        r == is_ident_start_byte(s@[j as int]),
{
    let c: u8 = s[j];
    c == 95 || (65 <= c && c <= 90) || (97 <= c && c <= 122)
}

/// Scans past identifier bytes.
fn scan_ident(s: &[u8], j: usize) -> (r: usize)
    requires
        j <= s@.len(),
    ensures
        r == sp_ident_end(s@, j as int),
        j <= r <= s@.len(),
{
    let n: usize = s.len();
    let mut e: usize = j;
    while e < n && (s[e] == 95 || (65 <= s[e] && s[e] <= 90) || (97 <= s[e] && s[e] <= 122) || (48
        <= s[e] && s[e] <= 57))
        invariant
            j <= e <= n,
            n == s@.len(),
            sp_ident_end(s@, j as int) == sp_ident_end(s@, e as int),
        decreases n - e,
    {
        e += 1;
    }
    e
}

/// Parses the entry list of a table body at `i`.
pub fn p_entries<'a>(s: &'a [u8], i: usize, d: u16) -> (r: Result<
    (Vec<LuaTableEntry<'a>>, usize),
    PFlow,
>)
    requires
        i <= s@.len(),
    ensures
        r matches Ok((list, p)) ==> sp_entries(s@, i as int, d as nat) == SpRes::Found(
            crate::value::ents_model(list@),
            p as int,
        ) && i <= p <= s@.len(),
        r matches Err(PFlow::Back(_)) ==> sp_entries(s@, i as int, d as nat) is Fail,
        r matches Err(PFlow::Died(e)) ==> (sp_entries(s@, i as int, d as nat) matches SpRes::Abort(
            k,
        ) && abort_err(k, e)),
    decreases s@.len() - i, 5nat, d,
{
    let n: usize = s.len();
    match p_entry(s, i, d) {
        Err(PFlow::Back(_)) => {
            let list: Vec<LuaTableEntry<'a>> = Vec::new();
            proof {
                assert(crate::value::ents_model(list@) =~= Seq::<EntryModel>::empty());
            }
            Ok((list, i))
        },
        Err(PFlow::Died(e)) => Err(PFlow::Died(e)),
        Ok((e, p)) => {
            let mut list: Vec<LuaTableEntry<'a>> = Vec::new();
            list.push(e);
            proof {
                assert(imin(imax(p as int, i as int + 1), s@.len() as int) == p as int);
                assert(crate::value::ents_model(list@) =~= seq![entry_model(list@[0])]);
            }
            p_entries_more(s, p, d, list)
        },
    }
}

/// Parses further `sep entry` groups after a first batch ending at
/// `m`.
pub fn p_entries_more<'a>(s: &'a [u8], m: usize, d: u16, acc: Vec<LuaTableEntry<'a>>) -> (r:
    Result<(Vec<LuaTableEntry<'a>>, usize), PFlow>)
    requires
        m <= s@.len(),
    ensures
        r matches Ok((list, p)) ==> sp_entries_more(
            s@,
            m as int,
            d as nat,
            crate::value::ents_model(acc@),
        ) == SpRes::Found(crate::value::ents_model(list@), p as int) && m <= p <= s@.len(),
        r matches Err(PFlow::Died(e)) ==> (sp_entries_more(
            s@,
            m as int,
            d as nat,
            crate::value::ents_model(acc@),
        ) matches SpRes::Abort(k) && abort_err(k, e)),
        !(r matches Err(PFlow::Back(_))),
    decreases s@.len() - m, 6nat, d,
{
    let n: usize = s.len();
    if m < n && (s[m] == 44 || s[m] == 59) {
        match p_entry(s, m + 1, d) {
            Err(PFlow::Back(_)) => Ok((acc, m)),
            Err(PFlow::Died(e)) => Err(PFlow::Died(e)),
            Ok((e, p)) => {
                let mut acc2 = acc;
                acc2.push(e);
                proof {
                    assert(imin(imax(p as int, m as int + 2), s@.len() as int) == p as int);
                    assert(crate::value::ents_model(acc2@) =~= crate::value::ents_model(
                        acc@,
                    ).push(entry_model(acc2@[acc2@.len() - 1])));
                }
                p_entries_more(s, p, d, acc2)
            },
        }
    } else {
        Ok((acc, m))
    }
}

/// The token `return`.
pub open spec fn return_lit() -> Seq<u8> {
    seq![114u8, 101u8, 116u8, 117u8, 114u8, 110u8]
}

/// Skips `;` tokens and the whitespace around them.
pub open spec fn sp_semis(s: Seq<u8>, p: int) -> int
    decreases s.len() - imax(p, 0), 0nat,
    via sp_semis_dec
{
    if 0 <= p < s.len() && s[p] == 59 {
        sp_semis(s, imax(sp_ws(s, p + 1), p + 1))
    } else {
        p
    }
}

#[via_fn]
proof fn sp_semis_dec(s: Seq<u8>, p: int) {
    if 0 <= p < s.len() {
        lemma_sp_ws(s, p + 1);
    }
}

/// Semicolon runs never move backwards nor past the end.
pub proof fn lemma_sp_semis(s: Seq<u8>, p: int)
    requires
        0 <= p <= s.len(),
    ensures
        p <= sp_semis(s, p) <= s.len(),
    decreases s.len() - p,
{
    if p < s.len() && s[p] == 59 {
        lemma_sp_ws(s, p + 1);
        lemma_sp_semis(s, imax(sp_ws(s, p + 1), p + 1));
    }
}

/// Skips `;` tokens and whitespace.
pub fn skip_semis(s: &[u8], p: usize) -> (r: usize)
    requires
        p <= s@.len(),
    ensures
        r == sp_semis(s@, p as int),
        p <= r <= s@.len(),
    decreases s@.len() - p,
{
    let n: usize = s.len();
    if p < n && s[p] == 59 {
        let q = skip_ws(s, p + 1);
        proof {
            assert(imax(q as int, p as int + 1) == q as int);
        }
        skip_semis(s, q)
    } else {
        p
    }
}

/// A script at `i`: zero or more `name = value` assignments,
/// separated by whitespace and `;` tokens, in source order.  A
/// reserved word in assignment position stops the parse.
pub open spec fn sp_script(s: Seq<u8>, i: int, d: nat) -> SpRes<Seq<(Seq<u8>, ValModel)>>
    decreases s.len() - imax(i, 0), 7nat, d,
    via sp_script_dec
{
    if i < 0 || i >= s.len() {
        SpRes::Found(Seq::empty(), i)
    } else {
        let j = sp_ws(s, i);
        if !(0 <= j < s.len() && is_ident_start_byte(s[j])) {
            SpRes::Found(Seq::empty(), i)
        } else {
            let e = sp_ident_end(s, j);
            let word = s.subrange(j, e);
            if is_reserved_word(word) {
                SpRes::Abort(AbortKind::Reserved)
            } else {
                let r = sp_ws(s, e);
                if !(0 <= r < s.len() && s[r] == 61) {
                    SpRes::Found(Seq::empty(), i)
                } else {
                    match sp_value(s, imax(r + 1, j + 1), d) {
                        SpRes::Fail => SpRes::Found(Seq::empty(), i),
                        SpRes::Abort(k) => SpRes::Abort(k),
                        SpRes::Found(v, p) => {
                            let q = sp_semis(s, imin(imax(p, i + 1), s.len() as int));
                            match sp_script(s, imin(imax(q, i + 1), s.len() as int), d) {
                                SpRes::Found(list, end) => SpRes::Found(
                                    seq![(word, v)] + list,
                                    end,
                                ),
                                SpRes::Abort(k) => SpRes::Abort(k),
                                SpRes::Fail => SpRes::Fail,
                            }
                        },
                    }
                }
            }
        }
    }
}

#[via_fn]
proof fn sp_script_dec(s: Seq<u8>, i: int, d: nat) {
    if 0 <= i < s.len() {
        lemma_sp_ws(s, i);
    }
}

/// The models of a list of script assignments.
pub open spec fn pairs_model(v: Seq<(&[u8], LuaValue)>) -> Seq<(Seq<u8>, ValModel)> {
    Seq::new(
        v.len(),
        |i: int|
            if 0 <= i < v.len() {
                (v[i].0@, val_model(v[i].1))
            } else {
                (Seq::<u8>::empty(), ValModel::Nil)
            },
    )
}

/// Parses the assignments of a script from `i`.
pub fn p_script<'a>(s: &'a [u8], i: usize, d: u16) -> (r: Result<
    (Vec<(&'a [u8], LuaValue<'a>)>, usize),
    LuaError,
>)
    requires
        i <= s@.len(),
    ensures
        r matches Ok((list, p)) ==> sp_script(s@, i as int, d as nat) == SpRes::Found(
            pairs_model(list@),
            p as int,
        ) && i <= p <= s@.len(),
        r matches Err(e) ==> (sp_script(s@, i as int, d as nat) matches SpRes::Abort(k)
            && abort_err(k, e)),
    decreases s@.len() - i, 7nat, d,
{
    let n: usize = s.len();
    if i >= n {
        let list: Vec<(&'a [u8], LuaValue<'a>)> = Vec::new();
        proof {
            assert(pairs_model(list@) =~= Seq::<(Seq<u8>, ValModel)>::empty());
        }
        return Ok((list, i));
    }
    let j = skip_ws(s, i);
    if !(j < n && ident_start_at(s, j)) {
        let list: Vec<(&'a [u8], LuaValue<'a>)> = Vec::new();
        proof {
            assert(pairs_model(list@) =~= Seq::<(Seq<u8>, ValModel)>::empty());
        }
        return Ok((list, i));
    }
    let e = scan_ident(s, j);
    if crate::is_reserved(&s[j..e]) {
        return Err(LuaError::IdentifierReserved { at: j });
    }
    let rr = skip_ws(s, e);
    if !(rr < n && s[rr] == 61) {
        let list: Vec<(&'a [u8], LuaValue<'a>)> = Vec::new();
        proof {
            assert(pairs_model(list@) =~= Seq::<(Seq<u8>, ValModel)>::empty());
        }
        return Ok((list, i));
    }
    proof {
        assert(imax(rr as int + 1, j as int + 1) == rr as int + 1);
    }
    match p_value(s, rr + 1, d) {
        Err(PFlow::Back(_)) => {
            let list: Vec<(&'a [u8], LuaValue<'a>)> = Vec::new();
            proof {
                assert(pairs_model(list@) =~= Seq::<(Seq<u8>, ValModel)>::empty());
            }
            Ok((list, i))
        },
        Err(PFlow::Died(err)) => Err(err),
        Ok((v, p)) => {
            proof {
                assert(imin(imax(p as int, i as int + 1), s@.len() as int) == p as int);
            }
            let q = skip_semis(s, p);
            proof {
                assert(imin(imax(q as int, i as int + 1), s@.len() as int) == q as int);
            }
            match p_script(s, q, d) {
                Err(err) => Err(err),
                Ok((rest, end)) => {
                    let mut list: Vec<(&'a [u8], LuaValue<'a>)> = Vec::new();
                    list.push((&s[j..e], v));
                    let ghost head = list@;
                    let ghost orig_rest = rest@;
                    let mut rest = rest;
                    while rest.len() > 0
                        invariant
                            rest@.len() <= orig_rest.len(),
                            list@ =~= head + orig_rest.take(
                                orig_rest.len() - rest@.len(),
                            ),
                            rest@ =~= orig_rest.skip(orig_rest.len() - rest@.len()),
                        decreases rest@.len(),
                    {
                        let ghost done = orig_rest.len() - rest@.len();
                        let item = rest.remove(0);
                        proof {
                            assert(item == orig_rest[done]);
                            assert(orig_rest.take(done + 1) =~= orig_rest.take(done).push(
                                orig_rest[done],
                            ));
                            assert(rest@ =~= orig_rest.skip(done + 1));
                        }
                        list.push(item);
                    }
                    proof {
                        assert(orig_rest.take(orig_rest.len() as int) =~= orig_rest);
                        assert(list@ =~= head + orig_rest);
                        assert(pairs_model(list@) =~= seq![
                            (s@.subrange(j as int, e as int), val_model(v)),
                        ] + pairs_model(orig_rest));
                    }
                    Ok((list, end))
                },
            }
        },
    }
}

/// Parse a bare Lua value expression as a [`LuaValue`].
///
/// The value may be preceded or followed by whitespace; the whole
/// input must be consumed.
pub fn lua_value<'a>(s: &'a [u8], max_depth: u16) -> (r: Result<LuaValue<'a>, LuaError>)
    ensures
        r matches Ok(v) ==> sp_value(s@, 0, max_depth as nat) == SpRes::Found(
            v@,
            s@.len() as int,
        ),
        r matches Err(e) ==> match sp_value(s@, 0, max_depth as nat) {
            SpRes::Found(m, p) => p != s@.len() && e matches LuaError::GrammarError { .. },
            SpRes::Fail => e matches LuaError::GrammarError { .. },
            SpRes::Abort(k) => abort_err(k, e),
        },
{
    match p_value(s, 0, max_depth) {
        Ok((v, p)) => {
            if p == s.len() {
                Ok(v)
            } else {
                Err(LuaError::GrammarError { at: p })
            }
        },
        Err(PFlow::Back(b)) => Err(LuaError::GrammarError { at: b }),
        Err(PFlow::Died(e)) => Err(e),
    }
}

/// Parse a Lua `return` statement into a [`LuaValue`].
///
/// The statement is the word `return`, at least one whitespace byte,
/// and a value; the whole input must be consumed.
pub fn return_statement<'a>(s: &'a [u8], max_depth: u16) -> (r: Result<LuaValue<'a>, LuaError>)
    ensures
        r matches Ok(v) ==> sp_return(s@, max_depth as nat) == SpRes::Found(
            v@,
            s@.len() as int,
        ),
        r matches Err(e) ==> match sp_return(s@, max_depth as nat) {
            SpRes::Found(m, p) => p != s@.len() && e matches LuaError::GrammarError { .. },
            SpRes::Fail => e matches LuaError::GrammarError { .. },
            SpRes::Abort(k) => abort_err(k, e),
        },
{
    let n: usize = s.len();
    let j = skip_ws(s, 0);
    let return_t: Vec<u8> = vec![114u8, 101u8, 116u8, 117u8, 114u8, 110u8];
    proof {
        assert(return_t@ =~= return_lit());
    }
    if !lit_at(s, j, return_t.as_slice()) {
        return Err(LuaError::GrammarError { at: j });
    }
    if !(j + 6 < n && (s[j + 6] == 32 || s[j + 6] == 9 || s[j + 6] == 10 || s[j + 6] == 13 || s[j
        + 6] == 11 || s[j + 6] == 12)) {
        return Err(LuaError::GrammarError { at: j });
    }
    match p_value(s, j + 7, max_depth) {
        Ok((v, p)) => {
            if p == n {
                Ok(v)
            } else {
                Err(LuaError::GrammarError { at: p })
            }
        },
        Err(PFlow::Back(b)) => Err(LuaError::GrammarError { at: b }),
        Err(PFlow::Died(e)) => Err(e),
    }
}

/// A `return` statement: whitespace, the word `return`, one
/// whitespace byte, and a value.
pub open spec fn sp_return(s: Seq<u8>, d: nat) -> SpRes<ValModel> {
    let j = sp_ws(s, 0);
    if sp_lit_at(s, j, return_lit()) && j + 6 < s.len() && is_ws(s[j + 6]) {
        sp_value(s, j + 7, d)
    } else {
        SpRes::Fail
    }
}

/// Parse a Lua script containing variable assignments into a list of
/// name and value pairs, in source order.
pub fn script<'a>(s: &'a [u8], max_depth: u16) -> (r: Result<
    Vec<(&'a [u8], LuaValue<'a>)>,
    LuaError,
>)
    ensures
        r matches Ok(list) ==> sp_script(s@, 0, max_depth as nat) == SpRes::Found(
            pairs_model(list@),
            s@.len() as int,
        ),
        r matches Err(e) ==> match sp_script(s@, 0, max_depth as nat) {
            SpRes::Found(m, p) => p != s@.len() && e matches LuaError::GrammarError { .. },
            SpRes::Fail => e matches LuaError::GrammarError { .. },
            SpRes::Abort(k) => abort_err(k, e),
        },
{
    match p_script(s, 0, max_depth) {
        Ok((list, p)) => {
            if p == s.len() {
                Ok(list)
            } else {
                Err(LuaError::GrammarError { at: p })
            }
        },
        Err(e) => Err(e),
    }
}

} // verus!
