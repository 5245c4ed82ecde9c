//! Lexical pieces of the text-kernel parser, over the bytes of the text.

use vstd::prelude::*;

use crate::chars::{char_is_whitespace, latin1_chars, string_from_bytes, unicode_whitespace};
use crate::decimal::{
    decimal_token_valid, decimal_token_valid_at, index_of_from, parse_i32_at, parse_u8_at,
    spec_parse_i32, spec_parse_u8,
};

verus! {

/// A calendar date written as `@YYYY-MMM-D` in a kernel.
#[derive(Debug, Clone, Copy, PartialEq, Eq)]
pub struct KernelDate {
    pub year: i32,
    pub month: u8,
    pub day: u8,
}

/// One lexical value on the right-hand side of an assignment.
pub enum Value {
    /// Quoted string contents (one character per byte).
    Str(String),
    Int(i32),
    /// A decimal floating-point literal, with `d`/`D` exponents written `E`.
    Float(String),
    Date(KernelDate),
    Other,
}

pub enum ValueView {
    Str(Seq<char>),
    Int(i32),
    Float(Seq<char>),
    Date(KernelDate),
    Other,
}

impl View for Value {
    type V = ValueView;

    open spec fn view(&self) -> ValueView {
        match self {
            Value::Str(s) => ValueView::Str(s@),
            Value::Int(n) => ValueView::Int(*n),
            Value::Float(s) => ValueView::Float(s@),
            Value::Date(d) => ValueView::Date(*d),
            Value::Other => ValueView::Other,
        }
    }
}

pub open spec fn values_view(v: Seq<Value>) -> Seq<ValueView> {
    Seq::new(v.len(), |i: int| v[i]@)
}

// ---- byte classes -------------------------------------------------------
pub open spec fn is_alpha(b: u8) -> bool {
    (65 <= b <= 90) || (97 <= b <= 122)
}

pub open spec fn is_digit(b: u8) -> bool {
    48 <= b <= 57
}

pub open spec fn is_alnum(b: u8) -> bool {
    is_alpha(b) || is_digit(b)
}

pub open spec fn is_ident_start(b: u8) -> bool {
    is_alpha(b) || b == 95u8
}

pub open spec fn is_ident_continue(b: u8) -> bool {
    is_alnum(b) || b == 95u8 || b == 47u8
}

/// A byte read as a character (`b as char`) that is Unicode whitespace.
pub open spec fn is_space(b: u8) -> bool {
    unicode_whitespace(b as char)
}

pub open spec fn is_separator(b: u8) -> bool {
    is_space(b) || b == 44u8
}

pub open spec fn is_numeric_start(b: u8) -> bool {
    b == 45u8 || b == 43u8 || is_digit(b) || b == 46u8
}

pub open spec fn is_numeric_continue(b: u8) -> bool {
    is_digit(b) || b == 46u8 || b == 101u8 || b == 69u8 || b == 100u8 || b == 68u8 || b == 43u8
        || b == 45u8
}

pub open spec fn is_date_continue(b: u8) -> bool {
    is_alnum(b) || b == 45u8 || b == 58u8 || b == 46u8 || b == 47u8
}

pub open spec fn is_word_continue(b: u8) -> bool {
    is_alnum(b) || b == 95u8
}

pub open spec fn ascii_upper(b: u8) -> u8 {
    if 97 <= b <= 122 {
        (b - 32) as u8
    } else {
        b
    }
}

pub open spec fn ascii_lower(b: u8) -> u8 {
    if 65 <= b <= 90 {
        (b + 32) as u8
    } else {
        b
    }
}

pub open spec fn upper_seq(s: Seq<u8>) -> Seq<u8> {
    Seq::new(s.len(), |i: int| ascii_upper(s[i]))
}

pub open spec fn lower_seq(s: Seq<u8>) -> Seq<u8> {
    Seq::new(s.len(), |i: int| ascii_lower(s[i]))
}

// ---- runs ---------------------------------------------------------------
/// The end of the run of bytes satisfying `p` that starts at `j`.
pub open spec fn run_end(s: Seq<u8>, j: int, p: spec_fn(u8) -> bool) -> int
    decreases s.len() - j,
{
    if j < 0 || j >= s.len() || !p(s[j]) {
        j
    } else {
        run_end(s, j + 1, p)
    }
}

pub proof fn lemma_run_end(s: Seq<u8>, j: int, e: int, p: spec_fn(u8) -> bool)
    requires
        0 <= j <= e <= s.len(),
        forall|k: int| j <= k < e ==> #[trigger] p(s[k]),
        e == s.len() || !p(s[e]),
    ensures
        run_end(s, j, p) == e,
    decreases e - j,
{
    if j < e {
        lemma_run_end(s, j + 1, e, p);
    }
}

pub proof fn lemma_run_end_bounds(s: Seq<u8>, j: int, p: spec_fn(u8) -> bool)
    requires
        0 <= j <= s.len(),
    ensures
        j <= run_end(s, j, p) <= s.len(),
    decreases s.len() - j,
{
    if j < s.len() && p(s[j]) {
        lemma_run_end_bounds(s, j + 1, p);
    }
}

/// Number of newline bytes in `s[a..b]`.
pub open spec fn newlines_in(s: Seq<u8>, a: int, b: int) -> int
    decreases b - a,
{
    if b <= a {
        0
    } else {
        newlines_in(s, a, b - 1) + (if s[b - 1] == 10u8 {
            1int
        } else {
            0int
        })
    }
}

pub proof fn lemma_newlines_split(s: Seq<u8>, a: int, m: int, b: int)
    requires
        a <= m <= b,
    ensures
        newlines_in(s, a, b) == newlines_in(s, a, m) + newlines_in(s, m, b),
    decreases b - m,
{
    if m < b {
        lemma_newlines_split(s, a, m, b - 1);
    }
}

pub proof fn lemma_newlines_bounds(s: Seq<u8>, a: int, b: int)
    ensures
        0 <= newlines_in(s, a, b),
        a <= b ==> newlines_in(s, a, b) <= b - a,
    decreases b - a,
{
    if b > a {
        lemma_newlines_bounds(s, a, b - 1);
    }
}

pub open spec fn space_pred() -> spec_fn(u8) -> bool {
    |b: u8| is_space(b)
}

pub open spec fn separator_pred() -> spec_fn(u8) -> bool {
    |b: u8| is_separator(b)
}

/// Whether the byte, read as a character, is whitespace.
pub fn byte_is_space(b: u8) -> (r: bool)
    ensures
        r == is_space(b),
{
    char_is_whitespace(b as char)
}

fn byte_is_alpha(b: u8) -> (r: bool)
    ensures
        r == is_alpha(b),
{
    (65 <= b && b <= 90) || (97 <= b && b <= 122)
}

fn byte_is_alnum(b: u8) -> (r: bool)
    ensures
        r == is_alnum(b),
{
    byte_is_alpha(b) || (48 <= b && b <= 57)
}

fn byte_is_numeric_continue(x: u8) -> (r: bool)
    ensures
        r == is_numeric_continue(x),
{
    (48 <= x && x <= 57) || x == 46 || x == 101 || x == 69 || x == 100 || x == 68 || x == 43 || x
        == 45
}

fn byte_is_date_continue(x: u8) -> (r: bool)
    ensures
        r == is_date_continue(x),
{
    byte_is_alnum(x) || x == 45 || x == 58 || x == 46 || x == 47
}

pub fn byte_is_ident_start(b: u8) -> (r: bool)
    ensures
        r == is_ident_start(b),
{
    byte_is_alpha(b) || b == 95
}

pub fn byte_is_ident_continue(b: u8) -> (r: bool)
    ensures
        r == is_ident_continue(b),
{
    byte_is_alnum(b) || b == 95 || b == 47
}

/// Skip whitespace from `i`; returns the end of the run and the newlines in it.
pub fn skip_spaces(b: &[u8], i: usize) -> (r: (usize, usize))
    requires
        i <= b@.len(),
    ensures
        r.0 == run_end(b@, i as int, space_pred()),
        r.1 == newlines_in(b@, i as int, r.0 as int),
        i <= r.0 <= b@.len(),
{
    let mut j = i;
    let mut delta: usize = 0;
    while j < b.len() && byte_is_space(b[j])
        invariant
            i <= j <= b@.len(),
            forall|k: int| i <= k < j ==> #[trigger] space_pred()(b@[k]),
            delta == newlines_in(b@, i as int, j as int),
            delta <= j - i,
        decreases b@.len() - j,
    {
        if b[j] == 10 {
            delta += 1;
        }
        j += 1;
    }
    proof {
        lemma_run_end(b@, i as int, j as int, space_pred());
    }
    (j, delta)
}

/// Skip whitespace and commas from `i`; returns the end and the newlines.
fn skip_separators(b: &[u8], i: usize) -> (r: (usize, usize))
    requires
        i <= b@.len(),
    ensures
        r.0 == run_end(b@, i as int, separator_pred()),
        r.1 == newlines_in(b@, i as int, r.0 as int),
        i <= r.0 <= b@.len(),
{
    let mut j = i;
    let mut delta: usize = 0;
    while j < b.len() && (b[j] == 44 || byte_is_space(b[j]))
        invariant
            i <= j <= b@.len(),
            forall|k: int| i <= k < j ==> #[trigger] separator_pred()(b@[k]),
            delta == newlines_in(b@, i as int, j as int),
            delta <= j - i,
        decreases b@.len() - j,
    {
        if b[j] == 10 {
            delta += 1;
        }
        j += 1;
    }
    proof {
        lemma_run_end(b@, i as int, j as int, separator_pred());
    }
    (j, delta)
}

/// End of the run of identifier bytes starting at `start`.
pub fn read_identifier(b: &[u8], start: usize) -> (r: usize)
    requires
        start <= b@.len(),
    ensures
        r == run_end(b@, start as int, |x: u8| is_ident_continue(x)),
        start <= r <= b@.len(),
{
    let mut end = start;
    while end < b.len() && byte_is_ident_continue(b[end])
        invariant
            start <= end <= b@.len(),
            forall|k: int| start <= k < end ==> #[trigger] is_ident_continue(b@[k]),
        decreases b@.len() - end,
    {
        end += 1;
    }
    proof {
        let p = |x: u8| is_ident_continue(x);
        assert forall|k: int| start <= k < end implies #[trigger] p(b@[k]) by {}
        lemma_run_end(b@, start as int, end as int, p);
    }
    end
}

/// The end of a `\word` directive starting at the backslash `start`.
pub open spec fn spec_directive_end(s: Seq<u8>, start: int) -> Option<int> {
    let e = run_end(s, start + 1, |x: u8| is_alpha(x));
    if e == start + 1 {
        None
    } else {
        Some(e)
    }
}

pub fn directive_end(b: &[u8], start: usize) -> (r: Option<usize>)
    requires
        start < b@.len(),
    ensures
        r matches Some(e) ==> Some(e as int) == spec_directive_end(b@, start as int) && e
            <= b@.len(),
        r is None ==> spec_directive_end(b@, start as int) is None,
{
    let n = b.len();
    let mut end = start + 1;
    while end < n && byte_is_alpha(b[end])
        invariant
            n == b@.len(),
            start + 1 <= end <= b@.len(),
            forall|k: int| start + 1 <= k < end ==> #[trigger] is_alpha(b@[k]),
        decreases b@.len() - end,
    {
        end += 1;
    }
    proof {
        let p = |x: u8| is_alpha(x);
        assert forall|k: int| start + 1 <= k < end implies #[trigger] p(b@[k]) by {}
        lemma_run_end(b@, start + 1, end as int, p);
    }
    if end == start + 1 {
        None
    } else {
        Some(end)
    }
}

/// `b[from..to]` equals `lit` ignoring ASCII case.
pub open spec fn eq_ignore_case(s: Seq<u8>, from: int, to: int, lit: Seq<u8>) -> bool {
    lower_seq(s.subrange(from, to)) == lower_seq(lit)
}

pub fn bytes_eq_ignore_case(b: &[u8], from: usize, to: usize, lit: &[u8]) -> (r: bool)
    requires
        from <= to <= b@.len(),
    ensures
        r == eq_ignore_case(b@, from as int, to as int, lit@),
{
    if to - from != lit.len() {
        proof {
            assert(lower_seq(b@.subrange(from as int, to as int)).len() != lower_seq(lit@).len());
        }
        return false;
    }
    let mut k: usize = 0;
    while k < lit.len()
        invariant
            to - from == lit@.len(),
            from <= to <= b@.len(),
            k <= lit.len(),
            forall|j: int|
                0 <= j < k ==> ascii_lower(#[trigger] b@[from + j]) == ascii_lower(lit@[j]),
        decreases lit.len() - k,
    {
        let x = b[from + k];
        let y = lit[k];
        let lx = if 65 <= x && x <= 90 {
            x + 32
        } else {
            x
        };
        let ly = if 65 <= y && y <= 90 {
            y + 32
        } else {
            y
        };
        if lx != ly {
            proof {
                assert(lower_seq(b@.subrange(from as int, to as int))[k as int] != lower_seq(
                    lit@,
                )[k as int]);
            }
            return false;
        }
        k += 1;
    }
    proof {
        let sub = b@.subrange(from as int, to as int);
        assert forall|j: int| 0 <= j < sub.len() implies lower_seq(sub)[j] == lower_seq(lit@)[j] by {
            assert(sub[j] == b@[from + j]);
        }
        assert(lower_seq(sub) =~= lower_seq(lit@));
    }
    true
}

/// The ASCII-uppercased copy of `b[from..to]`.
pub fn upper_bytes(b: &[u8], from: usize, to: usize) -> (r: Vec<u8>)
    requires
        from <= to <= b@.len(),
    ensures
        r@ == upper_seq(b@.subrange(from as int, to as int)),
{
    let mut out: Vec<u8> = Vec::new();
    let mut k = from;
    while k < to
        invariant
            from <= k <= to <= b@.len(),
            out@ == upper_seq(b@.subrange(from as int, k as int)),
        decreases to - k,
    {
        let x = b[k];
        let u = if 97 <= x && x <= 122 {
            x - 32
        } else {
            x
        };
        out.push(u);
        k += 1;
        assert(upper_seq(b@.subrange(from as int, k as int)) =~= upper_seq(
            b@.subrange(from as int, k - 1),
        ).push(u));
    }
    out
}

/// Skip whitespace, then require `=` or `+=`: the index after the
/// operator and the newlines skipped, or `None`.
pub open spec fn spec_skip_operator(s: Seq<u8>, i: int) -> Option<(int, int)> {
    let j = run_end(s, i, space_pred());
    let k = if j < s.len() && s[j] == 43u8 {
        j + 1
    } else {
        j
    };
    if k < s.len() && s[k] == 61u8 {
        Some((k + 1, newlines_in(s, i, j)))
    } else {
        None
    }
}

pub fn skip_assignment_operator(b: &[u8], i: usize) -> (r: Option<(usize, usize)>)
    requires
        i <= b@.len(),
    ensures
        r matches Some(p) ==> spec_skip_operator(b@, i as int) == Some(
            (p.0 as int, p.1 as int),
        ) && i < p.0 <= b@.len() && p.1 <= p.0 - i,
        r is None ==> spec_skip_operator(b@, i as int) is None,
{
    let (j, delta) = skip_spaces(b, i);
    let k = if j < b.len() && b[j] == 43 {
        j + 1
    } else {
        j
    };
    if k < b.len() && b[k] == 61 {
        proof {
            lemma_newlines_bounds(b@, i as int, j as int);
        }
        Some((k + 1, delta))
    } else {
        None
    }
}

// ---- quoted strings -----------------------------------------------------
/// Read a quoted string whose opening quote precedes `m`: the index after
/// the closing quote (or the end of the text), the content bytes (a
/// doubled quote stands for one quote), and the newlines inside.
pub open spec fn read_quoted(s: Seq<u8>, m: int, q: u8) -> (int, Seq<u8>, int)
    decreases s.len() - m,
{
    if m < 0 || m >= s.len() {
        (m, Seq::empty(), 0)
    } else if s[m] == q {
        if m + 1 < s.len() && s[m + 1] == q {
            let r = read_quoted(s, m + 2, q);
            (r.0, seq![q] + r.1, r.2)
        } else {
            (m + 1, Seq::empty(), 0)
        }
    } else {
        let r = read_quoted(s, m + 1, q);
        (r.0, seq![s[m]] + r.1, r.2 + (if s[m] == 10u8 {
            1int
        } else {
            0int
        }))
    }
}

pub proof fn lemma_read_quoted_bounds(s: Seq<u8>, m: int, q: u8)
    requires
        0 <= m <= s.len(),
    ensures
        m <= read_quoted(s, m, q).0 <= s.len(),
        0 <= read_quoted(s, m, q).2 <= read_quoted(s, m, q).0 - m,
    decreases s.len() - m,
{
    if m < s.len() {
        if s[m] == q {
            if m + 1 < s.len() && s[m + 1] == q {
                lemma_read_quoted_bounds(s, m + 2, q);
            }
        } else {
            lemma_read_quoted_bounds(s, m + 1, q);
        }
    }
}

fn read_quoted_exec(b: &[u8], m0: usize, q: u8) -> (r: (usize, Vec<u8>, usize))
    requires
        m0 <= b@.len(),
    ensures
        (r.0 as int, r.1@, r.2 as int) == read_quoted(b@, m0 as int, q),
{
    let ghost total = read_quoted(b@, m0 as int, q);
    let mut m = m0;
    let mut content: Vec<u8> = Vec::new();
    let mut delta: usize = 0;
    proof {
        lemma_read_quoted_bounds(b@, m0 as int, q);
    }
    loop
        invariant
            m0 <= m <= b@.len(),
            total == read_quoted(b@, m0 as int, q),
            read_quoted(b@, m as int, q).0 == total.0,
            content@ + read_quoted(b@, m as int, q).1 == total.1,
            delta + read_quoted(b@, m as int, q).2 == total.2,
            total.2 <= total.0 - m0,
            total.0 <= b@.len(),
        decreases b@.len() - m,
    {
        if m >= b.len() {
            assert(content@ + Seq::<u8>::empty() == content@);
            return (m, content, delta);
        }
        proof {
            lemma_read_quoted_bounds(b@, m as int, q);
        }
        if b[m] == q {
            if m + 1 < b.len() && b[m + 1] == q {
                proof {
                    let r = read_quoted(b@, m + 2, q);
                    assert(content@.push(q) + r.1 == content@ + (seq![q] + r.1));
                }
                content.push(q);
                m += 2;
                continue ;
            }
            assert(content@ + Seq::<u8>::empty() == content@);
            return (m + 1, content, delta);
        }
        proof {
            let r = read_quoted(b@, m + 1, q);
            assert(content@.push(b@[m as int]) + r.1 == content@ + (seq![b@[m as int]] + r.1));
            lemma_read_quoted_bounds(b@, m + 1, q);
        }
        if b[m] == 10 {
            delta += 1;
        }
        content.push(b[m]);
        m += 1;
    }
}

// ---- numbers and dates --------------------------------------------------
pub open spec fn has_float_marker(t: Seq<u8>) -> bool {
    exists|i: int|
        0 <= i < t.len() && (t[i] == 46u8 || t[i] == 101u8 || t[i] == 69u8 || t[i] == 100u8 || t[i]
            == 68u8)
}

/// `d`/`D` exponent markers rewritten as `E`.
pub open spec fn exp_normalized(t: Seq<u8>) -> Seq<u8> {
    Seq::new(
        t.len(),
        |i: int|
            if t[i] == 100u8 || t[i] == 68u8 {
                69u8
            } else {
                t[i]
            },
    )
}

/// The value of a numeric token: an `i32` when it has no float marker and
/// fits, else a decimal literal when valid, else `Other`.
pub open spec fn numeric_value(t: Seq<u8>) -> ValueView {
    if !has_float_marker(t) && spec_parse_i32(t) is Some {
        ValueView::Int(spec_parse_i32(t)->0)
    } else if decimal_token_valid(exp_normalized(t)) {
        ValueView::Float(latin1_chars(exp_normalized(t)))
    } else {
        ValueView::Other
    }
}

proof fn lemma_float_marker_push(a: Seq<u8>, c: u8)
    ensures
        has_float_marker(a.push(c)) == (has_float_marker(a) || c == 46u8 || c == 101u8 || c
            == 69u8 || c == 100u8 || c == 68u8),
{
    let a2 = a.push(c);
    if has_float_marker(a) {
        let w = choose|i: int|
            0 <= i < a.len() && (a[i] == 46u8 || a[i] == 101u8 || a[i] == 69u8 || a[i] == 100u8
                || a[i] == 68u8);
        assert(a2[w] == a[w]);
    }
    if c == 46u8 || c == 101u8 || c == 69u8 || c == 100u8 || c == 68u8 {
        assert(a2[a.len() as int] == c);
    }
    if has_float_marker(a2) {
        let w = choose|i: int|
            0 <= i < a2.len() && (a2[i] == 46u8 || a2[i] == 101u8 || a2[i] == 69u8 || a2[i]
                == 100u8 || a2[i] == 68u8);
        if w < a.len() {
            assert(a[w] == a2[w]);
        }
    }
}

fn parse_numeric_value(b: &[u8], from: usize, to: usize) -> (r: Value)
    requires
        from <= to <= b@.len(),
    ensures
        r@ == numeric_value(b@.subrange(from as int, to as int)),
{
    let ghost t = b@.subrange(from as int, to as int);
    let mut is_float = false;
    let mut k = from;
    while k < to
        invariant
            from <= k <= to <= b@.len(),
            t == b@.subrange(from as int, to as int),
            is_float == has_float_marker(b@.subrange(from as int, k as int)),
        decreases to - k,
    {
        let c = b[k];
        proof {
            let a = b@.subrange(from as int, k as int);
            assert(b@.subrange(from as int, k + 1) == a.push(c));
            lemma_float_marker_push(a, c);
        }
        if c == 46 || c == 101 || c == 69 || c == 100 || c == 68 {
            is_float = true;
        }
        k += 1;
    }
    if !is_float {
        if let Some(n) = parse_i32_at(b, from, to) {
            return Value::Int(n);
        }
    }
    let mut norm: Vec<u8> = Vec::new();
    let mut j = from;
    while j < to
        invariant
            from <= j <= to <= b@.len(),
            t == b@.subrange(from as int, to as int),
            norm@ == exp_normalized(b@.subrange(from as int, j as int)),
        decreases to - j,
    {
        let c = b[j];
        let n = if c == 100 || c == 68 {
            69
        } else {
            c
        };
        norm.push(n);
        j += 1;
        assert(exp_normalized(b@.subrange(from as int, j as int)) =~= exp_normalized(
            b@.subrange(from as int, j - 1),
        ).push(n));
    }
    let ns = norm.as_slice();
    let valid = decimal_token_valid_at(ns, 0, ns.len());
    proof {
        assert(ns@.subrange(0, ns@.len() as int) == ns@);
    }
    if valid {
        Value::Float(string_from_bytes(ns, 0, ns.len()))
    } else {
        Value::Other
    }
}

/// Month number of a three-letter month name (ASCII case ignored).
pub open spec fn month_number(m: Seq<u8>) -> Option<u8> {
    let u = upper_seq(m);
    if u == seq![74u8, 65u8, 78u8] {
        Some(1u8)
    } else if u == seq![70u8, 69u8, 66u8] {
        Some(2u8)
    } else if u == seq![77u8, 65u8, 82u8] {
        Some(3u8)
    } else if u == seq![65u8, 80u8, 82u8] {
        Some(4u8)
    } else if u == seq![77u8, 65u8, 89u8] {
        Some(5u8)
    } else if u == seq![74u8, 85u8, 78u8] {
        Some(6u8)
    } else if u == seq![74u8, 85u8, 76u8] {
        Some(7u8)
    } else if u == seq![65u8, 85u8, 71u8] {
        Some(8u8)
    } else if u == seq![83u8, 69u8, 80u8] {
        Some(9u8)
    } else if u == seq![79u8, 67u8, 84u8] {
        Some(10u8)
    } else if u == seq![78u8, 79u8, 86u8] {
        Some(11u8)
    } else if u == seq![68u8, 69u8, 67u8] {
        Some(12u8)
    } else {
        None
    }
}

fn parse_month(b: &[u8], from: usize, to: usize) -> (r: Option<u8>)
    requires
        from <= to <= b@.len(),
    ensures
        r == month_number(b@.subrange(from as int, to as int)),
{
    let u = upper_bytes(b, from, to);
    if u.len() != 3 {
        proof {
            let n = upper_seq(b@.subrange(from as int, to as int));
            assert(n.len() != 3);
            assert(n != seq![74u8, 65u8, 78u8]);
            assert(n != seq![70u8, 69u8, 66u8]);
            assert(n != seq![77u8, 65u8, 82u8]);
            assert(n != seq![65u8, 80u8, 82u8]);
            assert(n != seq![77u8, 65u8, 89u8]);
            assert(n != seq![74u8, 85u8, 78u8]);
            assert(n != seq![74u8, 85u8, 76u8]);
            assert(n != seq![65u8, 85u8, 71u8]);
            assert(n != seq![83u8, 69u8, 80u8]);
            assert(n != seq![79u8, 67u8, 84u8]);
            assert(n != seq![78u8, 79u8, 86u8]);
            assert(n != seq![68u8, 69u8, 67u8]);
        }
        return None;
    }
    let (x, y, z) = (u[0], u[1], u[2]);
    assert(u@ == seq![x, y, z]);
    if x == 74 && y == 65 && z == 78 {
        Some(1)
    } else if x == 70 && y == 69 && z == 66 {
        Some(2)
    } else if x == 77 && y == 65 && z == 82 {
        Some(3)
    } else if x == 65 && y == 80 && z == 82 {
        Some(4)
    } else if x == 77 && y == 65 && z == 89 {
        Some(5)
    } else if x == 74 && y == 85 && z == 78 {
        Some(6)
    } else if x == 74 && y == 85 && z == 76 {
        Some(7)
    } else if x == 65 && y == 85 && z == 71 {
        Some(8)
    } else if x == 83 && y == 69 && z == 80 {
        Some(9)
    } else if x == 79 && y == 67 && z == 84 {
        Some(10)
    } else if x == 78 && y == 79 && z == 86 {
        Some(11)
    } else if x == 68 && y == 69 && z == 67 {
        Some(12)
    } else {
        None
    }
}

pub open spec fn leap_year(year: i32) -> bool {
    (year % 4 == 0 && year % 100 != 0) || year % 400 == 0
}

#[verifier::nonlinear]
pub fn is_leap_year(year: i32) -> (r: bool)
    ensures
        r == leap_year(year),
{
    let by4 = year % 4 == 0;
    let by100 = year % 100 == 0;
    let by400 = year % 400 == 0;
    (by4 && !by100) || by400
}

pub open spec fn days_in_month(year: i32, month: u8) -> int {
    if month == 1 || month == 3 || month == 5 || month == 7 || month == 8 || month == 10 || month
        == 12 {
        31
    } else if month == 4 || month == 6 || month == 9 || month == 11 {
        30
    } else if month == 2 {
        if leap_year(year) {
            29
        } else {
            28
        }
    } else {
        0
    }
}

/// A day exists in the month (months outside 1..=12 have no days).
pub open spec fn day_valid(year: i32, month: u8, day: u8) -> bool {
    day != 0 && day <= days_in_month(year, month)
}

pub fn valid_day(year: i32, month: u8, day: u8) -> (r: bool)
    ensures
        r == day_valid(year, month, day),
{
    if day == 0 {
        return false;
    }
    let max: u8 = match month {
        1 | 3 | 5 | 7 | 8 | 10 | 12 => 31,
        4 | 6 | 9 | 11 => 30,
        2 => if is_leap_year(year) {
            29
        } else {
            28
        },
        _ => return false,
    };
    day <= max
}

/// The date of an `@YYYY-MMM-D` token (`t` starts with `@`): exactly
/// three `-`-separated parts, a valid `i32` year, a month name, a `u8`
/// day that exists in that month.
pub open spec fn date_of_token(t: Seq<u8>) -> Option<KernelDate> {
    let rest = t.drop_first();
    let a = index_of_from(rest, 0, 45u8);
    let b = index_of_from(rest, a + 1, 45u8);
    let c = index_of_from(rest, b + 1, 45u8);
    if t.len() == 0 || a >= rest.len() || b >= rest.len() || c < rest.len() {
        None
    } else {
        let year = spec_parse_i32(rest.subrange(0, a));
        let month = month_number(rest.subrange(a + 1, b));
        let day = spec_parse_u8(rest.subrange(b + 1, rest.len() as int));
        if year is Some && month is Some && day is Some && day_valid(
            year->0,
            month->0,
            day->0,
        ) {
            Some(KernelDate { year: year->0, month: month->0, day: day->0 })
        } else {
            None
        }
    }
}

pub proof fn lemma_index_of_from_bounds(s: Seq<u8>, from: int, x: u8)
    requires
        0 <= from,
    ensures
        from <= s.len() ==> from <= index_of_from(s, from, x) <= s.len(),
        from > s.len() ==> index_of_from(s, from, x) == s.len(),
        index_of_from(s, from, x) < s.len() ==> s[index_of_from(s, from, x)] == x,
    decreases s.len() - from,
{
    if from < s.len() && s[from] != x {
        lemma_index_of_from_bounds(s, from + 1, x);
    }
}

/// First index in `b[from..to]` (at or after `at`) holding `x`, or `to`,
/// as an offset from `from`.
fn find_in(b: &[u8], from: usize, at: usize, to: usize, x: u8) -> (r: usize)
    requires
        from <= at <= to <= b@.len(),
    ensures
        at <= r <= to,
        r - from == index_of_from(b@.subrange(from as int, to as int), at - from, x),
{
    let ghost s = b@.subrange(from as int, to as int);
    let mut i = at;
    while i < to
        invariant
            from <= at <= i <= to <= b@.len(),
            s == b@.subrange(from as int, to as int),
            index_of_from(s, i - from, x) == index_of_from(s, at - from, x),
        decreases to - i,
    {
        if b[i] == x {
            return i;
        }
        assert(s[i - from] == b@[i as int]);
        i += 1;
    }
    i
}

fn parse_kernel_date(b: &[u8], from: usize, to: usize) -> (r: Option<KernelDate>)
    requires
        from < to <= b@.len(),
    ensures
        r == date_of_token(b@.subrange(from as int, to as int)),
{
    let ghost t = b@.subrange(from as int, to as int);
    let ghost rest = t.drop_first();
    let s = from + 1;
    assert(rest == b@.subrange(s as int, to as int));
    let a = find_in(b, s, s, to, 45);
    if a >= to {
        return None;
    }
    let bb = find_in(b, s, a + 1, to, 45);
    if bb >= to {
        return None;
    }
    let c = find_in(b, s, bb + 1, to, 45);
    if c < to {
        return None;
    }
    proof {
        assert(rest.subrange(0, a - s) == b@.subrange(s as int, a as int));
        assert(rest.subrange(a - s + 1, bb - s) == b@.subrange(a + 1, bb as int));
        assert(rest.subrange(bb - s + 1, rest.len() as int) == b@.subrange(bb + 1, to as int));
    }
    let year = match parse_i32_at(b, s, a) {
        Some(y) => y,
        None => return None,
    };
    let month = match parse_month(b, a + 1, bb) {
        Some(m) => m,
        None => return None,
    };
    let day = match parse_u8_at(b, bb + 1, to) {
        Some(d) => d,
        None => return None,
    };
    if !valid_day(year, month, day) {
        return None;
    }
    Some(KernelDate { year, month, day })
}

// ---- value lists --------------------------------------------------------
/// One value starting at `j` (`j < s.len()`, not a separator): the end of
/// its text, the value, and the newlines inside; `None` when the byte
/// starts no value.
pub open spec fn read_one_value(s: Seq<u8>, j: int) -> Option<(int, ValueView, int)> {
    let c = s[j];
    if c == 39u8 || c == 34u8 {
        let r = read_quoted(s, j + 1, c);
        Some((r.0, ValueView::Str(latin1_chars(r.1)), r.2))
    } else if is_numeric_start(c) {
        let e = run_end(s, j + 1, |x: u8| is_numeric_continue(x));
        Some((e, numeric_value(s.subrange(j, e)), 0))
    } else if c == 64u8 {
        let e = run_end(s, j + 1, |x: u8| is_date_continue(x));
        Some(
            (
                e,
                match date_of_token(s.subrange(j, e)) {
                    Some(d) => ValueView::Date(d),
                    None => ValueView::Other,
                },
                0,
            ),
        )
    } else if is_ident_start(c) {
        Some((run_end(s, j, |x: u8| is_word_continue(x)), ValueView::Other, 0))
    } else {
        None
    }
}

pub proof fn lemma_read_one_value_bounds(s: Seq<u8>, j: int)
    requires
        0 <= j < s.len(),
    ensures
        read_one_value(s, j) matches Some((e, v, n)) ==> j < e <= s.len() && 0 <= n <= e - j,
{
    let c = s[j];
    if c == 39u8 || c == 34u8 {
        lemma_read_quoted_bounds(s, j + 1, c);
    } else if is_numeric_start(c) {
        lemma_run_end_bounds(s, j + 1, |x: u8| is_numeric_continue(x));
    } else if c == 64u8 {
        lemma_run_end_bounds(s, j + 1, |x: u8| is_date_continue(x));
    } else if is_ident_start(c) {
        let p = |x: u8| is_word_continue(x);
        assert(p(s[j]));
        lemma_run_end_bounds(s, j + 1, p);
    }
}

/// The values from `k` on: separators are skipped, a `)` closes a
/// parenthesised list, and an unparenthesised list holds one value.
/// Returns the end index, the values, and the newlines consumed.
pub open spec fn read_items(s: Seq<u8>, k: int, paren: bool) -> (int, Seq<ValueView>, int)
    decreases s.len() - k,
{
    if k < 0 || k > s.len() {
        (k, Seq::empty(), 0)
    } else {
        let j = run_end(s, k, separator_pred());
        let n0 = newlines_in(s, k, j);
        if j >= s.len() {
            (j, Seq::empty(), n0)
        } else if paren && s[j] == 41u8 {
            (j + 1, Seq::empty(), n0)
        } else {
            match read_one_value(s, j) {
                None => (j, Seq::empty(), n0),
                Some((e, v, n1)) => {
                    if paren {
                        proof {
                            lemma_run_end_bounds(s, k, separator_pred());
                            lemma_read_one_value_bounds(s, j);
                        }
                        let r = read_items(s, e, paren);
                        (r.0, seq![v] + r.1, n0 + n1 + r.2)
                    } else {
                        (e, seq![v], n0 + n1)
                    }
                },
            }
        }
    }
}

pub proof fn lemma_read_items_bounds(s: Seq<u8>, k: int, paren: bool)
    requires
        0 <= k <= s.len(),
    ensures
        k <= read_items(s, k, paren).0 <= s.len(),
        0 <= read_items(s, k, paren).2 <= read_items(s, k, paren).0 - k,
    decreases s.len() - k,
{
    let j = run_end(s, k, separator_pred());
    lemma_run_end_bounds(s, k, separator_pred());
    lemma_newlines_bounds(s, k, j);
    if j < s.len() && !(paren && s[j] == 41u8) {
        lemma_read_one_value_bounds(s, j);
        if let Some((e, v, n1)) = read_one_value(s, j) {
            if paren {
                lemma_read_items_bounds(s, e, paren);
            }
        }
    }
}

/// A value list after an assignment operator at `i`: optional whitespace,
/// an optional `(`, then [`read_items`].
pub open spec fn spec_read_values(s: Seq<u8>, i: int) -> (int, Seq<ValueView>, int) {
    let j = run_end(s, i, space_pred());
    let n0 = newlines_in(s, i, j);
    let paren = j < s.len() && s[j] == 40u8;
    let k = if paren {
        j + 1
    } else {
        j
    };
    let r = read_items(s, k, paren);
    (r.0, r.1, n0 + r.2)
}

/// Read the value at `j` (the exec side of [`read_one_value`]).
fn read_one_value_exec(b: &[u8], j: usize) -> (r: Option<(usize, Value, usize)>)
    requires
        j < b@.len(),
    ensures
        match read_one_value(b@, j as int) {
            Some((e, v, n)) => r matches Some(x) && x.0 == e && x.1@ == v && x.2 == n,
            None => r is None,
        },
{
    let c = b[j];
    if c == 39 || c == 34 {
        let (e, content, n) = read_quoted_exec(b, j + 1, c);
        proof {
            lemma_read_quoted_bounds(b@, j + 1, c);
        }
        let cs = content.as_slice();
        let s = string_from_bytes(cs, 0, cs.len());
        assert(cs@.subrange(0, cs@.len() as int) == cs@);
        return Some((e, Value::Str(s), n));
    }
    if c == 45 || c == 43 || (48 <= c && c <= 57) || c == 46 {
        let mut e = j + 1;
        while e < b.len() && byte_is_numeric_continue(b[e])
            invariant
                j + 1 <= e <= b@.len(),
                forall|k: int| j + 1 <= k < e ==> #[trigger] is_numeric_continue(b@[k]),
            decreases b@.len() - e,
        {
            e += 1;
        }
        proof {
            let p = |x: u8| is_numeric_continue(x);
            assert forall|k: int| j + 1 <= k < e implies #[trigger] p(b@[k]) by {}
            lemma_run_end(b@, j + 1, e as int, p);
        }
        let v = parse_numeric_value(b, j, e);
        return Some((e, v, 0));
    }
    if c == 64 {
        let mut e = j + 1;
        while e < b.len() && byte_is_date_continue(b[e])
            invariant
                j + 1 <= e <= b@.len(),
                forall|k: int| j + 1 <= k < e ==> #[trigger] is_date_continue(b@[k]),
            decreases b@.len() - e,
        {
            e += 1;
        }
        proof {
            let p = |x: u8| is_date_continue(x);
            assert forall|k: int| j + 1 <= k < e implies #[trigger] p(b@[k]) by {}
            lemma_run_end(b@, j + 1, e as int, p);
        }
        let v = match parse_kernel_date(b, j, e) {
            Some(d) => Value::Date(d),
            None => Value::Other,
        };
        return Some((e, v, 0));
    }
    if byte_is_ident_start(c) {
        let mut e = j;
        while e < b.len() && (byte_is_alnum(b[e]) || b[e] == 95)
            invariant
                j <= e <= b@.len(),
                forall|k: int| j <= k < e ==> #[trigger] is_word_continue(b@[k]),
            decreases b@.len() - e,
        {
            e += 1;
        }
        proof {
            let p = |x: u8| is_word_continue(x);
            assert forall|k: int| j <= k < e implies #[trigger] p(b@[k]) by {}
            lemma_run_end(b@, j as int, e as int, p);
        }
        return Some((e, Value::Other, 0));
    }
    None
}

/// Read a scalar or parenthesised list of values after the operator at `i`.
/// Returns the next index, the values, and the newlines consumed.
pub fn read_values(b: &[u8], i: usize) -> (r: (usize, Vec<Value>, usize))
    requires
        i <= b@.len(),
    ensures
        (r.0 as int, values_view(r.1@), r.2 as int) == spec_read_values(b@, i as int),
        i <= r.0 <= b@.len(),
        r.2 <= r.0 - i,
{
    let (j, n0) = skip_spaces(b, i);
    let paren = j < b.len() && b[j] == 40;
    let k0 = if paren {
        j + 1
    } else {
        j
    };
    let ghost total = read_items(b@, k0 as int, paren);
    assert(spec_read_values(b@, i as int) == (total.0, total.1, n0 + total.2));
    proof {
        lemma_read_items_bounds(b@, k0 as int, paren);
        lemma_newlines_bounds(b@, i as int, j as int);
    }
    let mut k = k0;
    let mut values: Vec<Value> = Vec::new();
    let mut delta: usize = n0;
    loop
        invariant
            k0 <= k <= b@.len(),
            i <= j <= k0,
            n0 == newlines_in(b@, i as int, j as int),
            n0 <= j - i,
            total == read_items(b@, k0 as int, paren),
            spec_read_values(b@, i as int) == (total.0, total.1, n0 + total.2),
            total.0 <= b@.len(),
            total.2 <= total.0 - k0,
            read_items(b@, k as int, paren).0 == total.0,
            values_view(values@) + read_items(b@, k as int, paren).1 == total.1,
            delta - n0 + read_items(b@, k as int, paren).2 == total.2,
            delta >= n0,
            delta <= k - i,
        decreases b@.len() - k,
    {
        let ghost here = read_items(b@, k as int, paren);
        let (jj, n1) = skip_separators(b, k);
        proof {
            lemma_read_items_bounds(b@, k as int, paren);
            lemma_newlines_bounds(b@, k as int, jj as int);
        }
        if jj >= b.len() {
            assert(here == (jj as int, Seq::<ValueView>::empty(), n1 as int));
            assert(values_view(values@) + Seq::<ValueView>::empty() == values_view(values@));
            return (jj, values, delta + n1);
        }
        if paren && b[jj] == 41 {
            assert(values_view(values@) + Seq::<ValueView>::empty() == values_view(values@));
            return (jj + 1, values, delta + n1);
        }
        match read_one_value_exec(b, jj) {
            None => {
                assert(here == (jj as int, Seq::<ValueView>::empty(), n1 as int));
                assert(values_view(values@) + Seq::<ValueView>::empty() == values_view(values@));
                return (jj, values, delta + n1);
            },
            Some((e, v, n2)) => {
                proof {
                    lemma_read_one_value_bounds(b@, jj as int);
                }
                let ghost vv = v@;
                let ghost old_vals = values@;
                values.push(v);
                proof {
                    assert(values_view(values@) == values_view(old_vals).push(vv));
                }
                if !paren {
                    assert(values_view(values@) == values_view(old_vals) + seq![vv]);
                    return (e, values, delta + n1 + n2);
                }
                proof {
                    let r = read_items(b@, e as int, paren);
                    lemma_read_items_bounds(b@, e as int, paren);
                    assert(values_view(values@) + r.1 == values_view(old_vals) + (seq![vv] + r.1));
                }
                delta = delta + n1 + n2;
                k = e;
            },
        }
    }
}

} // verus!
