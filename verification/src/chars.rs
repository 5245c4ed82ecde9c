//! Character-level helpers shared by the name and text-kernel code.

use vstd::prelude::*;

verus! {

/// `char::is_whitespace`: whether `c` has the Unicode `White_Space`
/// property, which holds of exactly these 25 code points: `\t`..=`\r`,
/// space, U+0085, U+00A0, U+1680, U+2000..=U+200A, U+2028, U+2029, U+202F,
/// U+205F and U+3000.
pub open spec fn unicode_whitespace(c: char) -> bool {
    let u = c as u32;
    ||| 0x09 <= u <= 0x0D
    ||| u == 0x20
    ||| u == 0x85
    ||| u == 0xA0
    ||| u == 0x1680
    ||| 0x2000 <= u <= 0x200A
    ||| u == 0x2028
    ||| u == 0x2029
    ||| u == 0x202F
    ||| u == 0x205F
    ||| u == 0x3000
}

/// The characters that `char::to_uppercase` yields for `c`.
pub uninterp spec fn unicode_uppercase(c: char) -> Seq<char>;

/// Whether `c` is whitespace, as `char::is_whitespace` decides it.
pub(crate) fn char_is_whitespace(c: char) -> (r: bool)
    ensures
        r == unicode_whitespace(c),
        (c as u32) < 128 ==> (r <==> (c == ' ' || ('\t' <= c && c <= '\r'))),
{
    let u = c as u32;
    (0x09 <= u && u <= 0x0D) || u == 0x20 || u == 0x85 || u == 0xA0 || u == 0x1680 || (0x2000 <= u
        && u <= 0x200A) || u == 0x2028 || u == 0x2029 || u == 0x202F || u == 0x205F || u == 0x3000
}

/// Calls `char::to_uppercase` and collects the characters it yields.
/// Claims that the result is the Unicode upper-case mapping of `c` (a
/// function of `c` alone) and, for ASCII, that `a`..=`z` map to the
/// corresponding capital letter and every other ASCII character maps to
/// itself.
#[verifier::external_body]
pub(crate) fn char_to_uppercase(c: char) -> (r: Vec<char>)
    ensures
        r@ == unicode_uppercase(c),
        ('a' <= c && c <= 'z') ==> r@ == seq![((c as u32) - 32) as char],
        ((c as u32) < 128 && !('a' <= c && c <= 'z')) ==> r@ == seq![c],
{
    c.to_uppercase().collect()
}

/// `String::push` appends one character.
pub assume_specification[ String::push ](s: &mut String, ch: char)
    ensures
        final(s)@ == old(s)@.push(ch),
;

/// Drop one trailing space, if there is one.
pub(crate) fn pop_trailing_space(s: String) -> (r: String)
    ensures
        r@ == (if s@.len() > 0 && s@.last() == ' ' { s@.drop_last() } else { s@ }),
{
    let chars = chars_of(s.as_str());
    let n = chars.len();
    if n > 0 && chars[n - 1] == ' ' {
        let mut out = String::new();
        let mut k: usize = 0;
        while k < n - 1
            invariant
                n == chars@.len(),
                n > 0,
                k <= n - 1,
                out@ == chars@.take(k as int),
            decreases n - 1 - k,
        {
            out.push(chars[k]);
            k += 1;
            assert(chars@.take(k as int) == chars@.take(k - 1).push(chars@[k - 1]));
        }
        assert(chars@.drop_last() == chars@.take(n - 1));
        out
    } else {
        s
    }
}

/// The characters of a string, in order.
pub fn chars_of(s: &str) -> (r: Vec<char>)
    ensures
        r@ == s@,
{
    let mut out: Vec<char> = Vec::new();
    for ch in it: s.chars()
        invariant
            it.seq() == s@,
            out@ == s@.take(it.index() as int),
    {
        out.push(ch);
        assert(s@.take(it.index() + 1) == s@.take(it.index() as int).push(ch));
    }
    assert(s@.take(s@.len() as int) == s@);
    out
}

/// Whether two strings hold the same characters.
pub fn str_eq(a: &str, b: &str) -> (r: bool)
    ensures
        r == (a@ == b@),
{
    let ca = chars_of(a);
    let cb = chars_of(b);
    if ca.len() != cb.len() {
        return false;
    }
    let mut i: usize = 0;
    while i < ca.len()
        invariant
            ca@ == a@,
            cb@ == b@,
            ca.len() == cb.len(),
            i <= ca.len(),
            forall|j: int| 0 <= j < i ==> ca@[j] == cb@[j],
        decreases ca.len() - i,
    {
        if ca[i] != cb[i] {
            return false;
        }
        i += 1;
    }
    assert(ca@ == cb@);
    true
}

/// Append the characters of `lit` to `out`.
pub fn push_str(out: &mut String, lit: &str)
    ensures
        final(out)@ == old(out)@ + lit@,
{
    let cs = chars_of(lit);
    let ghost base = out@;
    let mut k: usize = 0;
    while k < cs.len()
        invariant
            cs@ == lit@,
            k <= cs.len(),
            out@ == base + cs@.take(k as int),
        decreases cs.len() - k,
    {
        out.push(cs[k]);
        k += 1;
        assert(cs@.take(k as int) == cs@.take(k - 1).push(cs@[k - 1]));
    }
    assert(cs@.take(cs.len() as int) == cs@);
}

/// The characters that the bytes stand for, one per byte (`b as char`).
pub open spec fn latin1_chars(s: Seq<u8>) -> Seq<char> {
    Seq::new(s.len(), |i: int| s[i] as char)
}

/// A string made of the bytes `b[from..to]`, one character per byte.
pub fn string_from_bytes(b: &[u8], from: usize, to: usize) -> (r: String)
    requires
        from <= to <= b@.len(),
    ensures
        r@ == latin1_chars(b@.subrange(from as int, to as int)),
{
    let mut out = String::new();
    let mut k = from;
    while k < to
        invariant
            from <= k <= to <= b@.len(),
            out@ == latin1_chars(b@.subrange(from as int, k as int)),
        decreases to - k,
    {
        out.push(b[k] as char);
        k += 1;
        assert(latin1_chars(b@.subrange(from as int, k as int)) == latin1_chars(
            b@.subrange(from as int, k - 1),
        ).push(b@[k - 1] as char));
    }
    out
}

} // verus!
