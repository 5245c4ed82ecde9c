//! Decimal number tokens: the integer grammar of `i32`/`u8` `FromStr`
//! and the decimal floating-point literal grammar, over ASCII bytes.

use vstd::prelude::*;

verus! {

pub open spec fn is_digit(b: u8) -> bool {
    48 <= b <= 57
}

pub open spec fn all_digits(d: Seq<u8>) -> bool {
    forall|i: int| 0 <= i < d.len() ==> is_digit(d[i])
}

/// The value of a run of decimal digits (most significant first).
pub open spec fn digits_value(d: Seq<u8>) -> int
    decreases d.len(),
{
    if d.len() == 0 {
        0
    } else {
        digits_value(d.drop_last()) * 10 + (d.last() - 48)
    }
}

/// `str::parse::<i32>`: optional `+`/`-`, at least one digit, value in range.
pub open spec fn spec_parse_i32(t: Seq<u8>) -> Option<i32> {
    let neg = t.len() > 0 && t[0] == 45u8;
    let d = if t.len() > 0 && (t[0] == 45u8 || t[0] == 43u8) {
        t.drop_first()
    } else {
        t
    };
    if d.len() == 0 || !all_digits(d) {
        None
    } else {
        let v = if neg {
            -digits_value(d)
        } else {
            digits_value(d)
        };
        if i32::MIN <= v <= i32::MAX {
            Some(v as i32)
        } else {
            None
        }
    }
}

/// `str::parse::<u8>`: optional `+`, at least one digit, value at most 255.
pub open spec fn spec_parse_u8(t: Seq<u8>) -> Option<u8> {
    let d = if t.len() > 0 && t[0] == 43u8 {
        t.drop_first()
    } else {
        t
    };
    if d.len() == 0 || !all_digits(d) || digits_value(d) > 255 {
        None
    } else {
        Some(digits_value(d) as u8)
    }
}

/// First index at or after `from` holding `b` (or `s.len()`).
pub open spec fn index_of_from(s: Seq<u8>, from: int, b: u8) -> int
    decreases s.len() - from,
{
    if from >= s.len() {
        s.len() as int
    } else if from >= 0 && s[from] == b {
        from
    } else {
        index_of_from(s, from + 1, b)
    }
}

pub open spec fn is_exp_marker(b: u8) -> bool {
    b == 101u8 || b == 69u8
}

/// First index of `e` or `E` (or `s.len()`).
pub open spec fn exp_index(s: Seq<u8>, from: int) -> int
    decreases s.len() - from,
{
    if from >= s.len() {
        s.len() as int
    } else if from >= 0 && is_exp_marker(s[from]) {
        from
    } else {
        exp_index(s, from + 1)
    }
}

/// `Digit+ | Digit+ '.' Digit* | Digit* '.' Digit+`.
pub open spec fn mantissa_valid(m: Seq<u8>) -> bool {
    let p = index_of_from(m, 0, 46u8);
    let int_part = m.subrange(0, p);
    let frac = if p < m.len() {
        m.subrange(p + 1, m.len() as int)
    } else {
        Seq::<u8>::empty()
    };
    all_digits(int_part) && all_digits(frac) && int_part.len() + frac.len() > 0
}

/// `('e' | 'E') Sign? Digit+`.
pub open spec fn exponent_valid(x: Seq<u8>) -> bool {
    x.len() >= 2 && is_exp_marker(x[0]) && {
        let rest = x.drop_first();
        let digits = if rest[0] == 43u8 || rest[0] == 45u8 {
            rest.drop_first()
        } else {
            rest
        };
        digits.len() > 0 && all_digits(digits)
    }
}

/// A decimal floating-point literal: `Sign? Mantissa Exponent?`, the
/// numeric part of the grammar that `f64`'s `FromStr` documents (its
/// `inf`/`nan` spellings aside).
pub open spec fn decimal_token_valid(t: Seq<u8>) -> bool {
    let body = if t.len() > 0 && (t[0] == 43u8 || t[0] == 45u8) {
        t.drop_first()
    } else {
        t
    };
    let e = exp_index(body, 0);
    mantissa_valid(body.subrange(0, e)) && (e == body.len() || exponent_valid(
        body.subrange(e, body.len() as int),
    ))
}

proof fn lemma_digits_value_push(d: Seq<u8>, b: u8)
    ensures
        digits_value(d.push(b)) == digits_value(d) * 10 + (b - 48),
{
    assert(d.push(b).drop_last() == d);
}

proof fn lemma_digits_value_nonneg(d: Seq<u8>)
    requires
        all_digits(d),
    ensures
        digits_value(d) >= 0,
    decreases d.len(),
{
    if d.len() > 0 {
        lemma_digits_value_nonneg(d.drop_last());
    }
}

/// Appending digits never lowers the value.
proof fn lemma_digits_value_prefix(d: Seq<u8>, k: int)
    requires
        all_digits(d),
        0 <= k <= d.len(),
    ensures
        digits_value(d.subrange(0, k)) <= digits_value(d),
    decreases d.len() - k,
{
    if k < d.len() {
        lemma_digits_value_prefix(d, k + 1);
        let p = d.subrange(0, k + 1);
        assert(p.drop_last() == d.subrange(0, k));
        lemma_digits_value_nonneg(d.subrange(0, k));
    } else {
        assert(d.subrange(0, k) == d);
    }
}

pub open spec fn digit_run(s: Seq<u8>, from: int, to: int) -> bool {
    forall|i: int| from <= i < to ==> is_digit(s[i])
}

/// Value of the digits `b[from..to]` when all are digits and the value is
/// at most `limit`; `None` otherwise.
fn digits_upto(b: &[u8], from: usize, to: usize, limit: u64) -> (r: Option<u64>)
    requires
        from <= to <= b@.len(),
        limit <= 0x1_0000_0000,
    ensures
        match r {
            Some(v) => all_digits(b@.subrange(from as int, to as int)) && v == digits_value(
                b@.subrange(from as int, to as int),
            ) && v <= limit,
            None => !all_digits(b@.subrange(from as int, to as int)) || digits_value(
                b@.subrange(from as int, to as int),
            ) > limit,
        },
{
    let mut acc: u64 = 0;
    let mut i = from;
    while i < to
        invariant
            from <= i <= to <= b@.len(),
            limit <= 0x1_0000_0000,
            digit_run(b@, from as int, i as int),
            acc == digits_value(b@.subrange(from as int, i as int)),
            acc <= limit,
        decreases to - i,
    {
        let c = b[i];
        if c < 48 || c > 57 {
            proof {
                let s = b@.subrange(from as int, to as int);
                assert(!is_digit(s[i - from]));
            }
            return None;
        }
        proof {
            assert(b@.subrange(from as int, i + 1) == b@.subrange(from as int, i as int).push(c));
            lemma_digits_value_push(b@.subrange(from as int, i as int), c);
        }
        acc = acc * 10 + (c - 48) as u64;
        i += 1;
        if acc > limit {
            proof {
                let s = b@.subrange(from as int, to as int);
                if all_digits(s) {
                    lemma_digits_value_prefix(s, i - from);
                    assert(s.subrange(0, i - from) == b@.subrange(from as int, i as int));
                }
            }
            return None;
        }
    }
    proof {
        assert(all_digits(b@.subrange(from as int, to as int)));
    }
    Some(acc)
}

/// `str::parse::<i32>` on the ASCII token `b[from..to]`.
pub fn parse_i32_at(b: &[u8], from: usize, to: usize) -> (r: Option<i32>)
    requires
        from <= to <= b@.len(),
    ensures
        r == spec_parse_i32(b@.subrange(from as int, to as int)),
{
    let ghost t = b@.subrange(from as int, to as int);
    let mut start = from;
    let mut neg = false;
    if from < to && (b[from] == 45 || b[from] == 43) {
        neg = b[from] == 45;
        start = from + 1;
    }
    proof {
        if from < to && (b[from as int] == 45 || b[from as int] == 43) {
            assert(t.drop_first() == b@.subrange(start as int, to as int));
        } else {
            assert(t == b@.subrange(start as int, to as int));
        }
    }
    if start == to {
        return None;
    }
    let limit: u64 = if neg { 2147483648 } else { 2147483647 };
    match digits_upto(b, start, to, limit) {
        Some(v) => {
            if neg {
                if v == 2147483648 {
                    Some(-2147483648i32)
                } else {
                    Some(-(v as i32))
                }
            } else {
                Some(v as i32)
            }
        },
        None => None,
    }
}

/// `str::parse::<u8>` on the ASCII token `b[from..to]`.
pub fn parse_u8_at(b: &[u8], from: usize, to: usize) -> (r: Option<u8>)
    requires
        from <= to <= b@.len(),
    ensures
        r == spec_parse_u8(b@.subrange(from as int, to as int)),
{
    let ghost t = b@.subrange(from as int, to as int);
    let mut start = from;
    if from < to && b[from] == 43 {
        start = from + 1;
    }
    proof {
        if from < to && b[from as int] == 43 {
            assert(t.drop_first() == b@.subrange(start as int, to as int));
        } else {
            assert(t == b@.subrange(start as int, to as int));
        }
    }
    if start == to {
        return None;
    }
    match digits_upto(b, start, to, 255) {
        Some(v) => Some(v as u8),
        None => None,
    }
}

/// Whether every byte of `b[from..to]` is a digit.
fn all_digits_at(b: &[u8], from: usize, to: usize) -> (r: bool)
    requires
        from <= to <= b@.len(),
    ensures
        r == all_digits(b@.subrange(from as int, to as int)),
{
    let mut i = from;
    while i < to
        invariant
            from <= i <= to <= b@.len(),
            digit_run(b@, from as int, i as int),
        decreases to - i,
    {
        if b[i] < 48 || b[i] > 57 {
            proof {
                let s = b@.subrange(from as int, to as int);
                assert(!is_digit(s[i - from]));
            }
            return false;
        }
        i += 1;
    }
    true
}

/// First index in `b[from..to]` holding `x`, or `to`.
fn find_byte(b: &[u8], from: usize, to: usize, x: u8) -> (r: usize)
    requires
        from <= to <= b@.len(),
    ensures
        from <= r <= to,
        r - from == index_of_from(b@.subrange(from as int, to as int), 0, x),
{
    let ghost s = b@.subrange(from as int, to as int);
    let mut i = from;
    while i < to
        invariant
            from <= i <= to <= b@.len(),
            s == b@.subrange(from as int, to as int),
            index_of_from(s, i - from, x) == index_of_from(s, 0, x),
        decreases to - i,
    {
        if b[i] == x {
            return i;
        }
        assert(s[i - from] == b@[i as int]);
        i += 1;
    }
    i
}

/// First index in `b[from..to]` holding `e` or `E`, or `to`.
fn find_exp_marker(b: &[u8], from: usize, to: usize) -> (r: usize)
    requires
        from <= to <= b@.len(),
    ensures
        from <= r <= to,
        r - from == exp_index(b@.subrange(from as int, to as int), 0),
{
    let ghost s = b@.subrange(from as int, to as int);
    let mut i = from;
    while i < to
        invariant
            from <= i <= to <= b@.len(),
            s == b@.subrange(from as int, to as int),
            exp_index(s, i - from) == exp_index(s, 0),
        decreases to - i,
    {
        if b[i] == 101 || b[i] == 69 {
            return i;
        }
        assert(s[i - from] == b@[i as int]);
        i += 1;
    }
    i
}

/// Whether `b[from..to]` is a valid mantissa ([`mantissa_valid`]).
fn mantissa_valid_at(b: &[u8], from: usize, to: usize) -> (r: bool)
    requires
        from <= to <= b@.len(),
    ensures
        r == mantissa_valid(b@.subrange(from as int, to as int)),
{
    let ghost m = b@.subrange(from as int, to as int);
    let p = find_byte(b, from, to, 46);
    let int_ok = all_digits_at(b, from, p);
    let frac_ok = if p < to {
        all_digits_at(b, p + 1, to)
    } else {
        true
    };
    let frac_len = if p < to {
        to - (p + 1)
    } else {
        0
    };
    proof {
        assert(m.subrange(0, p - from) == b@.subrange(from as int, p as int));
        if p < to {
            assert(m.subrange(p - from + 1, m.len() as int) == b@.subrange(p + 1, to as int));
        }
    }
    int_ok && frac_ok && ((p - from) + frac_len > 0)
}

/// Whether `b[from..to]` is a valid exponent ([`exponent_valid`]).
fn exponent_valid_at(b: &[u8], from: usize, to: usize) -> (r: bool)
    requires
        from <= to <= b@.len(),
    ensures
        r == exponent_valid(b@.subrange(from as int, to as int)),
{
    let ghost x = b@.subrange(from as int, to as int);
    if to - from < 2 || (b[from] != 101 && b[from] != 69) {
        return false;
    }
    let mut d = from + 1;
    if b[d] == 43 || b[d] == 45 {
        d = d + 1;
    }
    proof {
        let rest = x.drop_first();
        assert(rest == b@.subrange(from + 1, to as int));
        if rest[0] == 43u8 || rest[0] == 45u8 {
            assert(rest.drop_first() == b@.subrange(d as int, to as int));
        } else {
            assert(rest == b@.subrange(d as int, to as int));
        }
    }
    d < to && all_digits_at(b, d, to)
}

/// Whether `b[from..to]` is a decimal floating-point literal
/// ([`decimal_token_valid`]).
pub fn decimal_token_valid_at(b: &[u8], from: usize, to: usize) -> (r: bool)
    requires
        from <= to <= b@.len(),
    ensures
        r == decimal_token_valid(b@.subrange(from as int, to as int)),
{
    let ghost t = b@.subrange(from as int, to as int);
    let mut start = from;
    if from < to && (b[from] == 43 || b[from] == 45) {
        start = from + 1;
    }
    let ghost body = b@.subrange(start as int, to as int);
    proof {
        if from < to && (b[from as int] == 43 || b[from as int] == 45) {
            assert(t.drop_first() == body);
        } else {
            assert(t == body);
        }
    }
    let e = find_exp_marker(b, start, to);
    proof {
        assert(body.subrange(0, e - start) == b@.subrange(start as int, e as int));
        assert(body.subrange(e - start, body.len() as int) == b@.subrange(e as int, to as int));
    }
    let mant_ok = mantissa_valid_at(b, start, e);
    if e == to {
        return mant_ok;
    }
    mant_ok && exponent_valid_at(b, e, to)
}

} // verus!
