//! IEEE-754 binary64 values held as their 64-bit patterns.
//!
//! DAF files store every number as a little-endian double. The library
//! keeps those numbers as their bit patterns (`u64`), and decides the
//! few things it needs of them here: integer conversion with Rust's
//! saturating `as` semantics, and the ordering that `<`/`<=` give.

use vstd::prelude::*;
use vstd::arithmetic::power2::{lemma2_to64, lemma2_to64_rest, lemma_pow2_pos, pow2};
use vstd::bits::{lemma_u64_shl_is_mul, lemma_u64_shr_is_div};

verus! {

pub open spec fn sign_bit(bits: u64) -> bool {
    bits >= 0x8000_0000_0000_0000u64
}

pub open spec fn exponent_field(bits: u64) -> int {
    (bits / 0x10_0000_0000_0000u64) as int % 2048
}

pub open spec fn mantissa_field(bits: u64) -> int {
    (bits % 0x10_0000_0000_0000u64) as int
}

pub open spec fn is_nan(bits: u64) -> bool {
    exponent_field(bits) == 2047 && mantissa_field(bits) != 0
}

/// The integer part of a finite positive double with exponent field at
/// least 1023 (value at least 1).
pub open spec fn truncated_magnitude(bits: u64) -> int {
    let e = exponent_field(bits);
    let sig = pow2(52) + mantissa_field(bits);
    if e >= 1075 {
        sig * pow2((e - 1075) as nat)
    } else {
        sig / (pow2((1075 - e) as nat) as int)
    }
}

/// `x as uN` for the double with these bits, where `max` is `uN::MAX`:
/// truncation toward zero, saturating at `0` and `max`, `NaN` giving `0`.
pub open spec fn double_to_uint(bits: u64, max: int) -> int {
    let e = exponent_field(bits);
    if e == 2047 {
        if mantissa_field(bits) != 0 || sign_bit(bits) {
            0
        } else {
            max
        }
    } else if sign_bit(bits) || e < 1023 {
        0
    } else if truncated_magnitude(bits) > max {
        max
    } else {
        truncated_magnitude(bits)
    }
}

/// A key that orders non-NaN doubles as `<` does (both zeros alike).
pub open spec fn order_key(bits: u64) -> int {
    let magnitude = (bits % 0x8000_0000_0000_0000u64) as int;
    if sign_bit(bits) {
        -magnitude
    } else {
        magnitude
    }
}

/// `a < b` on the doubles with these bits.
pub open spec fn double_lt(a: u64, b: u64) -> bool {
    !is_nan(a) && !is_nan(b) && order_key(a) < order_key(b)
}

/// `a <= b` on the doubles with these bits.
pub open spec fn double_le(a: u64, b: u64) -> bool {
    !is_nan(a) && !is_nan(b) && order_key(a) <= order_key(b)
}

/// The bits of `0.0`.
pub open spec fn positive_zero() -> u64 {
    0u64
}

proof fn lemma_fields(bits: u64)
    ensures
        (bits >> 52u64) & 0x7ffu64 == exponent_field(bits),
        bits & 0xF_FFFF_FFFF_FFFFu64 == mantissa_field(bits),
        (bits >> 63u64 == 1u64) == sign_bit(bits),
        bits & 0x7FFF_FFFF_FFFF_FFFFu64 == bits % 0x8000_0000_0000_0000u64,
        mantissa_field(bits) < pow2(52),
{
    assert((bits >> 52u64) & 0x7ffu64 == (bits / 0x10_0000_0000_0000u64) % 2048) by (bit_vector);
    assert(bits & 0xF_FFFF_FFFF_FFFFu64 == bits % 0x10_0000_0000_0000u64) by (bit_vector);
    assert((bits >> 63u64 == 1u64) == (bits >= 0x8000_0000_0000_0000u64)) by (bit_vector);
    assert(bits & 0x7FFF_FFFF_FFFF_FFFFu64 == bits % 0x8000_0000_0000_0000u64) by (bit_vector);
    lemma2_to64();
    lemma2_to64_rest();
}

/// `x as uN` for the double with bits `bits`, where `max` is `uN::MAX`.
pub fn double_to_uint_exec(bits: u64, max: u64) -> (r: u64)
    ensures
        r == double_to_uint(bits, max as int),
{
    proof {
        lemma_fields(bits);
        lemma2_to64();
        lemma2_to64_rest();
    }
    let e = (bits >> 52) & 0x7ff;
    let m = bits & 0xF_FFFF_FFFF_FFFF;
    let neg = bits >> 63 == 1;
    if e == 2047 {
        if m != 0 || neg {
            return 0;
        } else {
            return max;
        }
    }
    if neg || e < 1023 {
        return 0;
    }
    let sig = m + 0x10_0000_0000_0000;
    assert(sig == pow2(52) + mantissa_field(bits));
    if e >= 1087 {
        // The value is at least 2^64 > max.
        proof {
            assert(truncated_magnitude(bits) >= pow2(52) * pow2(12)) by {
                let k = (e - 1075) as nat;
                lemma_pow2_pos(k);
                if k > 12 {
                    vstd::arithmetic::power2::lemma_pow2_strictly_increases(12, k);
                }
                assert(pow2(12) <= pow2(k));
                vstd::arithmetic::mul::lemma_mul_inequality(pow2(12) as int, pow2(k) as int, pow2(52) as int);
                vstd::arithmetic::mul::lemma_mul_is_commutative(pow2(52) as int, pow2(k) as int);
                vstd::arithmetic::mul::lemma_mul_is_commutative(pow2(52) as int, pow2(12) as int);
                vstd::arithmetic::mul::lemma_mul_inequality(pow2(52) as int, sig as int, pow2(k) as int);
                vstd::arithmetic::mul::lemma_mul_is_commutative(sig as int, pow2(k) as int);
            }
            vstd::arithmetic::power2::lemma_pow2_adds(52, 12);
            assert(pow2(64) == 0x1_0000_0000_0000_0000) by {
                lemma2_to64_rest();
            }
        }
        return max;
    }
    let t: u64 = if e >= 1075 {
        let s = e - 1075;
        proof {
            assert(s <= 11);
            assert(pow2(s as nat) <= pow2(11)) by {
                if s < 11 {
                    vstd::arithmetic::power2::lemma_pow2_strictly_increases(s as nat, 11);
                }
            }
            assert(sig < 0x20_0000_0000_0000);
            vstd::arithmetic::mul::lemma_mul_inequality(pow2(s as nat) as int, pow2(11) as int, sig as int);
            vstd::arithmetic::mul::lemma_mul_is_commutative(pow2(s as nat) as int, sig as int);
            vstd::arithmetic::mul::lemma_mul_is_commutative(pow2(11) as int, sig as int);
            vstd::arithmetic::mul::lemma_mul_strict_inequality(sig as int, 0x20_0000_0000_0000, pow2(11) as int);
            lemma_u64_shl_is_mul(sig, s);
        }
        sig << s
    } else {
        let s = 1075 - e;
        proof {
            lemma_u64_shr_is_div(sig, s);
        }
        sig >> s
    };
    assert(t == truncated_magnitude(bits));
    if t > max {
        max
    } else {
        t
    }
}

/// `a < b` on doubles held as bits.
pub fn double_lt_exec(a: u64, b: u64) -> (r: bool)
    ensures
        r == double_lt(a, b),
{
    proof {
        lemma_fields(a);
        lemma_fields(b);
    }
    let a_nan = (a >> 52) & 0x7ff == 0x7ff && a & 0xF_FFFF_FFFF_FFFF != 0;
    let b_nan = (b >> 52) & 0x7ff == 0x7ff && b & 0xF_FFFF_FFFF_FFFF != 0;
    if a_nan || b_nan {
        return false;
    }
    let ma = a & 0x7FFF_FFFF_FFFF_FFFF;
    let mb = b & 0x7FFF_FFFF_FFFF_FFFF;
    let na = a >> 63 == 1;
    let nb = b >> 63 == 1;
    if na && nb {
        mb < ma
    } else if na {
        // -ma < mb unless both are zero.
        !(ma == 0 && mb == 0)
    } else if nb {
        false
    } else {
        ma < mb
    }
}

/// `a <= b` on doubles held as bits.
pub fn double_le_exec(a: u64, b: u64) -> (r: bool)
    ensures
        r == double_le(a, b),
{
    proof {
        lemma_fields(a);
        lemma_fields(b);
    }
    let a_nan = (a >> 52) & 0x7ff == 0x7ff && a & 0xF_FFFF_FFFF_FFFF != 0;
    let b_nan = (b >> 52) & 0x7ff == 0x7ff && b & 0xF_FFFF_FFFF_FFFF != 0;
    if a_nan || b_nan {
        return false;
    }
    let ma = a & 0x7FFF_FFFF_FFFF_FFFF;
    let mb = b & 0x7FFF_FFFF_FFFF_FFFF;
    let na = a >> 63 == 1;
    let nb = b >> 63 == 1;
    if na && nb {
        mb <= ma
    } else if na {
        true
    } else if nb {
        ma == 0 && mb == 0
    } else {
        ma <= mb
    }
}

} // verus!
