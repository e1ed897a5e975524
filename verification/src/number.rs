//! Lua's *number* type: a 64-bit signed integer or an IEEE-754 binary64
//! floating point value.
//!
//! Floating point values are carried as their 64-bit IEEE-754 bit
//! patterns, so that every query and conversion on them is exact
//! integer arithmetic.  Equality of two `Float`s is equality of their
//! bit patterns; in particular NaN equals NaN, and positive and
//! negative zero differ.
#![allow(unused_imports)]
use vstd::prelude::*;
use vstd::arithmetic::power2::{
    pow2, lemma_pow2_unfold, lemma_pow2_pos, lemma_pow2_adds, lemma2_to64, lemma2_to64_rest,
    lemma_pow2_strictly_increases,
};

verus! {

/// Sign bit of an IEEE-754 binary64 value.
pub const F64_SIGN_BIT: u64 = 0x8000_0000_0000_0000;

/// Bit pattern of positive infinity.
pub const F64_INF_BITS: u64 = 0x7FF0_0000_0000_0000;

/// Bit pattern of negative infinity.
pub const F64_NEG_INF_BITS: u64 = 0xFFF0_0000_0000_0000;

/// Bit pattern of the canonical quiet NaN.
pub const F64_NAN_BITS: u64 = 0x7FF8_0000_0000_0000;

/// Value of the implicit leading mantissa bit: 2^52.
pub const F64_IMPLICIT_BIT: u64 = 0x10_0000_0000_0000;

/// Maximum integer value that can be represented in a binary64 value
/// without loss of precision: 2^53 - 1.
pub const MAX_F64_INTEGER: i64 = 0x1F_FFFF_FFFF_FFFF;

/// Minimum integer value that can be represented in a binary64 value
/// without loss of precision: -(2^53 - 1).
pub const MIN_F64_INTEGER: i64 = -0x1F_FFFF_FFFF_FFFF;

/// The bit pattern with the sign bit cleared.
pub open spec fn f64_abs_bits(b: u64) -> u64 {
    if b >= F64_SIGN_BIT {
        (b - F64_SIGN_BIT) as u64
    } else {
        b
    }
}

/// True when the bit pattern denotes a NaN.
pub open spec fn f64_is_nan_bits(b: u64) -> bool {
    f64_abs_bits(b) > F64_INF_BITS
}

/// True when the bit pattern denotes positive or negative infinity.
pub open spec fn f64_is_inf_bits(b: u64) -> bool {
    f64_abs_bits(b) == F64_INF_BITS
}

/// True when the bit pattern denotes a finite value.
pub open spec fn f64_is_finite_bits(b: u64) -> bool {
    f64_abs_bits(b) < F64_INF_BITS
}

/// True when the sign bit is set.
pub open spec fn f64_is_negative_bits(b: u64) -> bool {
    b >= F64_SIGN_BIT
}

/// The bit pattern of the negated value: the sign bit flipped.
pub open spec fn f64_negate_bits(b: u64) -> u64 {
    if b >= F64_SIGN_BIT {
        (b - F64_SIGN_BIT) as u64
    } else {
        (b + F64_SIGN_BIT) as u64
    }
}

/// Position of the highest set bit: the largest `e` with `2^e <= m`.
pub open spec fn floor_log2(m: nat) -> nat
    decreases m,
{
    if m < 2 {
        0
    } else {
        1 + floor_log2(m / 2)
    }
}

/// `pow2(e) <= m < pow2(e + 1)` pins `floor_log2(m)` to `e`.
pub proof fn lemma_floor_log2(m: nat, e: nat)
    requires
        pow2(e) <= m,
        m < pow2(e + 1),
    ensures
        floor_log2(m) == e,
    decreases e,
{
    lemma_pow2_pos(e);
    if e == 0 {
        lemma2_to64();
        assert(m == 1);
    } else {
        lemma_pow2_unfold(e);
        lemma_pow2_unfold(e + 1);
        assert(pow2((e - 1) as nat) <= m / 2);
        assert(m / 2 < pow2(e));
        lemma_floor_log2(m / 2, (e - 1) as nat);
        assert(m >= 2) by {
            lemma_pow2_pos((e - 1) as nat);
        }
    }
}

/// The IEEE-754 binary64 bit pattern of an integer with magnitude at
/// most 2^53 - 1; such an integer converts without rounding.
pub open spec fn int_to_f64_bits(v: int) -> u64 {
    if v == 0 {
        0u64
    } else {
        let sign: u64 = if v < 0 {
            F64_SIGN_BIT
        } else {
            0u64
        };
        let m: nat = if v < 0 {
            (-v) as nat
        } else {
            v as nat
        };
        let e: nat = floor_log2(m);
        (sign + (e + 1023) * F64_IMPLICIT_BIT + (m * pow2((52 - e) as nat) - F64_IMPLICIT_BIT)) as u64
    }
}

/// 2^k as a `u64`.
pub fn pow2u64(k: u32) -> (r: u64)
    requires
        k < 64,
    ensures
        r == pow2(k as nat),
{
    let mut i: u32 = 0;
    let mut r: u64 = 1;
    proof {
        lemma2_to64();
        assert(pow2(0) == 1);
    }
    while i < k
        invariant
            0 <= i <= k < 64,
            r == pow2(i as nat),
        decreases k - i,
    {
        proof {
            lemma_pow2_unfold(i as nat + 1);
            lemma_pow2_strictly_increases(i as nat + 1, 64);
            lemma2_to64();
        }
        r = r * 2;
        i += 1;
    }
    r
}

/// Lua number: a 64-bit signed integer, or a binary64 floating point
/// value carried as its IEEE-754 bit pattern.
#[derive(Debug, Clone, Copy, PartialEq, Eq, Structural)]
pub enum LuaNumber {
    /// *number* type, *integer* subtype.
    Integer(i64),
    /// *number* type, *float* subtype, as IEEE-754 binary64 bits.
    Float(u64),
}

impl LuaNumber {
    /// Returns `true` if the value is NaN.
    pub fn is_nan(&self) -> (r: bool)
        ensures
            r == (self matches LuaNumber::Float(b) && f64_is_nan_bits(*b)),
    {
        match self {
            LuaNumber::Float(b) => {
                let a: u64 = if *b >= F64_SIGN_BIT {
                    *b - F64_SIGN_BIT
                } else {
                    *b
                };
                a > F64_INF_BITS
            },
            LuaNumber::Integer(_) => false,
        }
    }

    /// Returns `true` if the value is neither infinite nor NaN.
    pub fn is_finite(&self) -> (r: bool)
        ensures
            r == (self matches LuaNumber::Integer(_) || (self matches LuaNumber::Float(b)
                && f64_is_finite_bits(*b))),
    {
        match self {
            LuaNumber::Float(b) => {
                let a: u64 = if *b >= F64_SIGN_BIT {
                    *b - F64_SIGN_BIT
                } else {
                    *b
                };
                a < F64_INF_BITS
            },
            LuaNumber::Integer(_) => true,
        }
    }

    /// Returns `true` if the value is positive or negative infinity.
    pub fn is_infinite(&self) -> (r: bool)
        ensures
            r == (self matches LuaNumber::Float(b) && f64_is_inf_bits(*b)),
    {
        match self {
            LuaNumber::Float(b) => {
                let a: u64 = if *b >= F64_SIGN_BIT {
                    *b - F64_SIGN_BIT
                } else {
                    *b
                };
                a == F64_INF_BITS
            },
            LuaNumber::Integer(_) => false,
        }
    }

    /// Returns `true` if the number is represented using the integer
    /// subtype.
    pub fn is_i64(&self) -> (r: bool)
        ensures
            r == (self matches LuaNumber::Integer(_)),
    {
        matches!(self, LuaNumber::Integer(_))
    }

    /// Returns `true` if the number is represented using the float
    /// subtype.
    pub fn is_f64(&self) -> (r: bool)
        ensures
            r == (self matches LuaNumber::Float(_)),
    {
        matches!(self, LuaNumber::Float(_))
    }

    /// Attempt to convert a `LuaNumber::Integer` into an `i64`.
    pub fn as_i64(self) -> (r: Option<i64>)
        ensures
            r == (match self {
                LuaNumber::Integer(v) => Some(v),
                LuaNumber::Float(_) => None::<i64>,
            }),
    {
        match self {
            LuaNumber::Float(_) => None,
            LuaNumber::Integer(v) => Some(v),
        }
    }

    /// Attempt to convert a `LuaNumber` into binary64 bits.
    ///
    /// A `Float` yields its own bits.  An `Integer` converts when it
    /// can be represented without loss of precision, that is when its
    /// magnitude is at most 2^53 - 1.
    pub fn as_f64(self) -> (r: Option<u64>)
        ensures
            r == (match self {
                LuaNumber::Float(b) => Some(b),
                LuaNumber::Integer(v) => if MIN_F64_INTEGER <= v <= MAX_F64_INTEGER {
                    Some(int_to_f64_bits(v as int))
                } else {
                    None::<u64>
                },
            }),
    {
        match self {
            LuaNumber::Float(b) => Some(b),
            LuaNumber::Integer(v) => {
                if MIN_F64_INTEGER <= v && v <= MAX_F64_INTEGER {
                    Some(integer_to_f64_bits(v))
                } else {
                    None
                }
            },
        }
    }

    /// The value with the opposite sign: integers negate, floats flip
    /// their sign bit.
    pub fn negate(self) -> (r: LuaNumber)
        requires
            self matches LuaNumber::Integer(v) ==> v != i64::MIN,
        ensures
            r == (match self {
                LuaNumber::Integer(v) => LuaNumber::Integer((-v) as i64),
                LuaNumber::Float(b) => LuaNumber::Float(f64_negate_bits(b)),
            }),
    {
        match self {
            LuaNumber::Integer(v) => {
                let nv: i64 = -v;
                LuaNumber::Integer(nv)
            },
            LuaNumber::Float(b) => LuaNumber::Float(
                if b >= F64_SIGN_BIT {
                    b - F64_SIGN_BIT
                } else {
                    b + F64_SIGN_BIT
                },
            ),
        }
    }
}

/// Exact conversion of an integer of magnitude at most 2^53 - 1 to its
/// binary64 bit pattern.
pub fn integer_to_f64_bits(v: i64) -> (r: u64)
    requires
        MIN_F64_INTEGER <= v <= MAX_F64_INTEGER,
    ensures
        r == int_to_f64_bits(v as int),
{
    if v == 0 {
        return 0;
    }
    let sign: u64 = if v < 0 {
        F64_SIGN_BIT
    } else {
        0
    };
    let m: u64 = if v < 0 {
        (-v) as u64
    } else {
        v as u64
    };
    assert(1 <= m <= MAX_F64_INTEGER as u64);
    let mut e: u32 = 0;
    let mut p2: u64 = 2;
    proof {
        lemma2_to64();
        assert(pow2(0) == 1);
        assert(pow2(1) == 2);
    }
    while m >= p2
        invariant
            1 <= m <= MAX_F64_INTEGER as u64,
            e < 53,
            pow2(e as nat) <= m,
            p2 == pow2(e as nat + 1),
        decreases 53 - e,
    {
        proof {
            lemma_pow2_unfold(e as nat + 2);
            if e + 1 >= 53 {
                // m >= pow2(53) contradicts m <= 2^53 - 1
                assert(pow2(53) == 0x20_0000_0000_0000) by {
                    lemma2_to64();
                    lemma2_to64_rest();
                }
                assert(false);
            }
            lemma_pow2_strictly_increases(e as nat + 2, 64);
            lemma2_to64();
        }
        e += 1;
        p2 = p2 * 2;
    }
    assert(m < pow2(e as nat + 1));
    proof {
        lemma_floor_log2(m as nat, e as nat);
    }
    let scale: u64 = pow2u64(52 - e);
    proof {
        lemma_pow2_adds(e as nat, (52 - e) as nat);
        lemma_pow2_adds(e as nat + 1, (52 - e) as nat);
        lemma2_to64();
        lemma2_to64_rest();
        assert(pow2(52) == F64_IMPLICIT_BIT as nat);
        assert(pow2(53) == 0x20_0000_0000_0000nat);
        // 2^52 <= m * scale < 2^53
        assert(m as nat * pow2((52 - e) as nat) >= pow2(e as nat) * pow2((52 - e) as nat)) by {
            vstd::arithmetic::mul::lemma_mul_inequality(pow2(e as nat) as int, m as int, pow2((52
                - e) as nat) as int);
        }
        assert(m as nat * pow2((52 - e) as nat) < pow2(e as nat + 1) * pow2((52 - e) as nat)) by {
            vstd::arithmetic::mul::lemma_mul_strict_inequality(m as int, pow2(e as nat + 1) as int,
                pow2((52 - e) as nat) as int);
        }
    }
    let scaled: u64 = m * scale;
    let frac: u64 = scaled - F64_IMPLICIT_BIT;
    let r: u64 = sign + (e as u64 + 1023) * F64_IMPLICIT_BIT + frac;
    r
}

} // verus!
