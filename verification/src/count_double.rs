//! The doubles that DAF files use to store small counts.

use vstd::prelude::*;
use vstd::arithmetic::power2::{lemma2_to64, lemma2_to64_rest, lemma_pow2_pos, pow2};
use vstd::arithmetic::div_mod::{lemma_div_by_multiple, lemma_fundamental_div_mod_converse};
use vstd::bits::lemma_u64_shl_is_mul;

use crate::double_word::{
    double_to_uint, exponent_field, mantissa_field, sign_bit, truncated_magnitude,
};

verus! {

/// Index of the highest set bit of `n` (0 for `n <= 1`).
pub open spec fn top_bit(n: nat) -> nat
    decreases n,
{
    if n <= 1 {
        0
    } else {
        1 + top_bit(n / 2)
    }
}

/// The bits of the double that equals the integer `n` (`n < 2^53`).
pub open spec fn count_bits(n: nat) -> u64 {
    if n == 0 {
        0
    } else {
        let e = top_bit(n);
        ((1023 + e) * pow2(52) + (n - pow2(e)) * pow2((52 - e) as nat)) as u64
    }
}

pub proof fn lemma_top_bit(n: nat)
    requires
        n >= 1,
    ensures
        pow2(top_bit(n)) <= n < pow2(top_bit(n) + 1),
    decreases n,
{
    if n <= 1 {
        lemma2_to64();
    } else {
        lemma_top_bit(n / 2);
        vstd::arithmetic::power2::lemma_pow2_unfold(top_bit(n / 2) + 1);
        vstd::arithmetic::power2::lemma_pow2_unfold(top_bit(n / 2) + 2);
    }
}

proof fn lemma_top_bit_mono(n: nat, k: nat)
    requires
        1 <= n < pow2(k),
    ensures
        top_bit(n) < k,
{
    lemma_top_bit(n);
    if top_bit(n) >= k {
        if top_bit(n) > k {
            vstd::arithmetic::power2::lemma_pow2_strictly_increases(k, top_bit(n));
        }
    }
}

/// The double that equals `n` reads back as `n` through `as uN` (for any
/// `uN::MAX` at least `n`).
pub proof fn lemma_count_bits_roundtrip(n: nat, max: int)
    requires
        n < pow2(53),
        n <= max,
    ensures
        double_to_uint(count_bits(n), max) == n,
        !sign_bit(count_bits(n)),
{
    lemma2_to64();
    lemma2_to64_rest();
    if n == 0 {
        assert(exponent_field(0u64) == 0);
        assert(!sign_bit(0u64));
    } else {
        let e = top_bit(n);
        lemma_top_bit(n);
        lemma_top_bit_mono(n, 53);
        let d = (52 - e) as nat;
        let m = (n - pow2(e)) * pow2(d);
        lemma_pow2_pos(d);
        lemma_pow2_pos(e);
        vstd::arithmetic::power2::lemma_pow2_adds(e, d);
        vstd::arithmetic::power2::lemma_pow2_adds(e + 1, d);
        // m < 2^52: (n - 2^e) < 2^e, times 2^d.
        assert(m < pow2(52)) by {
            vstd::arithmetic::mul::lemma_mul_strict_inequality(
                (n - pow2(e)) as int,
                pow2(e) as int,
                pow2(d) as int,
            );
        }
        assert(m >= 0) by {
            vstd::arithmetic::mul::lemma_mul_nonnegative((n - pow2(e)) as int, pow2(d) as int);
        }
        let bits: int = (1023 + e) * pow2(52) + m;
        assert(bits < 0x8000_0000_0000_0000) by {
            assert((1023 + e) * pow2(52) <= 1075 * pow2(52)) by {
                vstd::arithmetic::mul::lemma_mul_inequality(
                    (1023 + e) as int,
                    1075,
                    pow2(52) as int,
                );
            }
        }
        assert(count_bits(n) == bits);
        let b = count_bits(n);
        assert(!sign_bit(b));
        assert(exponent_field(b) == 1023 + e) by {
            lemma_fundamental_div_mod_converse(bits, pow2(52) as int, (1023 + e) as int, m as int);
            assert((1023 + e) % 2048 == 1023 + e);
        }
        assert(mantissa_field(b) == m) by {
            lemma_fundamental_div_mod_converse(bits, pow2(52) as int, (1023 + e) as int, m as int);
        }
        // sig = 2^52 + m = n * 2^d, so sig / 2^d = n.
        assert(pow2(52) + m == n * pow2(d)) by {
            vstd::arithmetic::mul::lemma_mul_is_distributive_sub_other_way(
                pow2(d) as int,
                n as int,
                pow2(e) as int,
            );
        }
        assert(truncated_magnitude(b) == n) by {
            if e == 52 {
                assert(d == 0);
                assert(pow2(0) == 1);
                assert(pow2(d) == 1);
                assert(m == n - pow2(52)) by {
                    vstd::arithmetic::mul::lemma_mul_basics((n - pow2(e)) as int);
                }
                assert(exponent_field(b) - 1075 == 0);
                let sig = pow2(52) + mantissa_field(b);
                assert(sig == n);
                assert(sig * pow2(0) == n);
                assert(truncated_magnitude(b) == sig * pow2(0));
            } else {
                assert(exponent_field(b) < 1075);
                assert((1075 - exponent_field(b)) as nat == d);
                assert(pow2(52) + mantissa_field(b) == n * pow2(d));
                lemma_div_by_multiple(n as int, pow2(d) as int);
                assert(((n * pow2(d)) as int) / (pow2(d) as int) == n);
                assert(truncated_magnitude(b) == (pow2(52) + mantissa_field(b)) / (pow2(d) as int));
            }
        }
    }
}

/// The bits of the double that equals `n`.
pub fn count_to_double_bits(n: u64) -> (r: u64)
    requires
        n < 0x20_0000_0000_0000,
    ensures
        r == count_bits(n as nat),
{
    proof {
        lemma2_to64();
        lemma2_to64_rest();
    }
    if n == 0 {
        return 0;
    }
    proof {
        lemma_top_bit(n as nat);
        lemma_top_bit_mono(n as nat, 53);
    }
    // e = top_bit(n)
    let mut e: u64 = 0;
    let mut v: u64 = n;
    while v > 1
        invariant
            1 <= v <= n,
            e + top_bit(v as nat) == top_bit(n as nat),
            top_bit(n as nat) < 53,
        decreases v,
    {
        v = v / 2;
        e = e + 1;
    }
    let ghost te = top_bit(n as nat);
    assert(e == te);
    let pe: u64 = 1u64 << e;
    proof {
        lemma_u64_shl_is_mul(1u64, e);
    }
    let d: u64 = 52 - e;
    let low = n - pe;
    proof {
        assert(low < pe);
        vstd::arithmetic::power2::lemma_pow2_adds(e as nat, d as nat);
        vstd::arithmetic::mul::lemma_mul_strict_inequality(low as int, pe as int, pow2(d as nat) as int);
        assert(low * pow2(d as nat) < pow2(52));
        lemma_u64_shl_is_mul(low, d);
    }
    let mant = low << d;
    let expo = (1023 + e) * 0x10_0000_0000_0000;
    proof {
        assert(expo == (1023 + e) * pow2(52));
    }
    expo + mant
}

} // verus!
