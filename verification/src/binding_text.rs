//! What the text-kernel parser makes of a kernel that binds one body name
//! to one code: the quoted name comes back byte for byte and the code as
//! written, for every name without a quote and every `i32`.

use vstd::prelude::*;

use crate::chars::{latin1_chars, unicode_whitespace};
use crate::decimal::{all_digits, digits_value, spec_parse_i32};
use crate::text_kernel::{
    apply_assignment, begindata, finish_lsk, initial_scan_state, is_supported_key, scan,
    spec_parse_text_kernel, word_boundary_before, ScanState, TextKernelContentView,
    TextKernelErrorView,
};
use crate::text_lex::{
    has_float_marker, is_alpha, is_ident_continue, is_ident_start, is_numeric_continue,
    is_numeric_start, is_separator, is_space, lemma_run_end, newlines_in, numeric_value,
    read_items, read_one_value, read_quoted, run_end, separator_pred, space_pred,
    spec_directive_end, spec_read_values, spec_skip_operator, upper_seq, ValueView,
};

verus! {

/// The decimal digits of `n`, most significant first.
pub open spec fn nat_digits(n: nat) -> Seq<u8>
    decreases n,
{
    if n < 10 {
        seq![(48 + n) as u8]
    } else {
        nat_digits(n / 10).push((48 + n % 10) as u8)
    }
}

/// The bytes of `c.to_string()`: a `-` for a negative code, then the
/// decimal digits of its magnitude.
pub open spec fn i32_text(c: i32) -> Seq<u8> {
    if c < 0 {
        seq![45u8] + nat_digits((-c) as nat)
    } else {
        nat_digits(c as nat)
    }
}

/// `NAIF_BODY_NAME`.
pub open spec fn name_key() -> Seq<u8> {
    seq![78u8, 65u8, 73u8, 70u8, 95u8, 66u8, 79u8, 68u8, 89u8, 95u8, 78u8, 65u8, 77u8, 69u8]
}

/// `NAIF_BODY_CODE`.
pub open spec fn code_key() -> Seq<u8> {
    seq![78u8, 65u8, 73u8, 70u8, 95u8, 66u8, 79u8, 68u8, 89u8, 95u8, 67u8, 79u8, 68u8, 69u8]
}

/// The kernel
/// `\begindata`, `NAIF_BODY_NAME = '<name>'`, `NAIF_BODY_CODE = <code>`,
/// each line ended by a newline.
pub open spec fn one_binding_kernel(name: Seq<u8>, code: i32) -> Seq<u8> {
    begindata() + seq![10u8] + name_key() + seq![32u8, 61u8, 32u8, 39u8] + name + seq![39u8, 10u8]
        + code_key() + seq![32u8, 61u8, 32u8] + i32_text(code) + seq![10u8]
}

proof fn lemma_nat_digits(n: nat)
    ensures
        nat_digits(n).len() >= 1,
        all_digits(nat_digits(n)),
        digits_value(nat_digits(n)) == n,
    decreases n,
{
    let d = nat_digits(n);
    if n < 10 {
        assert(d.drop_last() =~= Seq::<u8>::empty());
        assert(digits_value(d) == digits_value(d.drop_last()) * 10 + (d.last() - 48));
    } else {
        lemma_nat_digits(n / 10);
        assert(d.drop_last() =~= nat_digits(n / 10));
        assert(d.last() - 48 == n % 10);
        assert(n == (n / 10) * 10 + n % 10) by (nonlinear_arith);
        assert(digits_value(d) == digits_value(d.drop_last()) * 10 + (d.last() - 48));
    }
}

proof fn lemma_i32_text(c: i32)
    ensures
        i32_text(c).len() >= 1,
        is_numeric_start(i32_text(c)[0]),
        forall|k: int| 1 <= k < i32_text(c).len() ==> #[trigger] crate::decimal::is_digit(i32_text(c)[k]),
        forall|k: int| 0 <= k < i32_text(c).len() ==> #[trigger] is_numeric_continue(i32_text(c)[k]),
        numeric_value(i32_text(c)) == ValueView::Int(c),
{
    let t = i32_text(c);
    if c < 0 {
        let m: nat = (-c) as nat;
        lemma_nat_digits(m);
        assert(t.drop_first() =~= nat_digits(m));
        assert(forall|k: int| 1 <= k < t.len() ==> t[k] == nat_digits(m)[k - 1]);
    } else {
        lemma_nat_digits(c as nat);
    }
    assert(spec_parse_i32(t) == Some(c));
    assert(!has_float_marker(t));
}

/// A quoted string with no quote inside reads back as written.
proof fn lemma_read_quoted_plain(s: Seq<u8>, m: int, e: int, q: u8)
    requires
        0 <= m <= e < s.len(),
        forall|k: int| m <= k < e ==> s[k] != q,
        s[e] == q,
        e + 1 < s.len() ==> s[e + 1] != q,
    ensures
        read_quoted(s, m, q).0 == e + 1,
        read_quoted(s, m, q).1 == s.subrange(m, e),
    decreases e - m,
{
    if m < e {
        lemma_read_quoted_plain(s, m + 1, e, q);
        assert(seq![s[m]] + s.subrange(m + 1, e) =~= s.subrange(m, e));
    } else {
        assert(s.subrange(m, e) =~= Seq::<u8>::empty());
    }
}

/// A newline inside a data block moves the scan on a byte and a line.
proof fn lemma_scan_newline(s: Seq<u8>, i: int, line: int, st: ScanState)
    requires
        0 <= i < s.len(),
        s[i] == 10u8,
    ensures
        scan(s, i, true, line, st) == scan(s, i + 1, true, line + 1, st),
{
}

/// An assignment `KEY = value` at `i` (one space on each side of `=`)
/// inside a data block.
proof fn lemma_scan_assignment(
    s: Seq<u8>,
    i: int,
    key_len: int,
    line: int,
    st: ScanState,
    e: int,
    v: ValueView,
    n: int,
)
    requires
        1 <= i,
        key_len >= 1,
        i + key_len + 3 < s.len(),
        !is_ident_continue(s[i - 1]),
        is_ident_start(s[i]),
        forall|k: int| i <= k < i + key_len ==> is_ident_continue(#[trigger] s[k]),
        s[i + key_len] == 32u8,
        s[i + key_len + 1] == 61u8,
        s[i + key_len + 2] == 32u8,
        !is_separator(s[i + key_len + 3]),
        s[i + key_len + 3] != 40u8,
        read_one_value(s, i + key_len + 3) == Some((e, v, n)),
        is_supported_key(latin1_chars(upper_seq(s.subrange(i, i + key_len)))),
        apply_assignment(latin1_chars(upper_seq(s.subrange(i, i + key_len))), seq![v], line, st) is Ok,
    ensures
        scan(s, i, true, line, st) == scan(
            s,
            e,
            true,
            line + n,
            apply_assignment(latin1_chars(upper_seq(s.subrange(i, i + key_len))), seq![v], line, st)->Ok_0,
        ),
{
    let end = i + key_len;
    assert(word_boundary_before(s, i));
    lemma_run_end(s, i, end, |x: u8| is_ident_continue(x));
    assert(is_space(32u8)) by {
        assert((32u8 as char) as u32 == 32);
    }
    assert(!is_space(61u8)) by {
        assert((61u8 as char) as u32 == 61);
    }
    assert(!is_space(s[end + 3]));
    lemma_run_end(s, end, end + 1, space_pred());
    assert(newlines_in(s, end, end) == 0);
    assert(newlines_in(s, end, end + 1) == 0);
    assert(spec_skip_operator(s, end) == Some((end + 2, 0int)));
    lemma_run_end(s, end + 2, end + 3, space_pred());
    assert(newlines_in(s, end + 2, end + 2) == 0);
    assert(newlines_in(s, end + 2, end + 3) == 0);
    lemma_run_end(s, end + 3, end + 3, separator_pred());
    assert(newlines_in(s, end + 3, end + 3) == 0);
    assert(read_items(s, end + 3, false) == (e, seq![v], n));
    assert(spec_read_values(s, end + 2) == (e, seq![v], n));
}

/// Where the parts of [`one_binding_kernel`] lie.
proof fn lemma_kernel_bytes(name: Seq<u8>, code: i32)
    ensures
        ({
            let s = one_binding_kernel(name, code);
            let l = name.len() as int;
            let t = i32_text(code);
            let dl = t.len() as int;
            &&& s.len() == 49 + l + dl
            &&& s.subrange(0, 10) == begindata()
            &&& s[10] == 10u8
            &&& s.subrange(11, 25) == name_key()
            &&& s[25] == 32u8 && s[26] == 61u8 && s[27] == 32u8 && s[28] == 39u8
            &&& s.subrange(29, 29 + l) == name
            &&& s[29 + l] == 39u8 && s[30 + l] == 10u8
            &&& s.subrange(31 + l, 45 + l) == code_key()
            &&& s[45 + l] == 32u8 && s[46 + l] == 61u8 && s[47 + l] == 32u8
            &&& s.subrange(48 + l, 48 + l + dl) == t
            &&& s[48 + l + dl] == 10u8
        }),
{
    let s = one_binding_kernel(name, code);
    let l = name.len() as int;
    let t = i32_text(code);
    let dl = t.len() as int;
    assert(s.subrange(0, 10) =~= begindata());
    assert(s.subrange(11, 25) =~= name_key());
    assert(s.subrange(29, 29 + l) =~= name);
    assert(s.subrange(31 + l, 45 + l) =~= code_key());
    assert(s.subrange(48 + l, 48 + l + dl) =~= t);
}

/// The `\begindata` line opens the data block.
proof fn lemma_kernel_directive(name: Seq<u8>, code: i32)
    ensures
        ({
            let s = one_binding_kernel(name, code);
            scan(s, 0, false, 1, initial_scan_state()) == scan(s, 11, true, 2, initial_scan_state())
        }),
{
    let s = one_binding_kernel(name, code);
    lemma_kernel_bytes(name, code);
    assert forall|k: int| 1 <= k < 10 implies #[trigger] is_alpha(s[k]) by {
        assert(s[k] == s.subrange(0, 10)[k]);
    }
    lemma_run_end(s, 1, 10, |x: u8| is_alpha(x));
    assert(spec_directive_end(s, 0) == Some(10int));
    lemma_scan_newline(s, 10, 1, initial_scan_state());
}

/// The name line.
#[verifier::spinoff_prover]
#[verifier::rlimit(60)]
proof fn lemma_kernel_name_line(name: Seq<u8>, code: i32)
    requires
        forall|k: int| 0 <= k < name.len() ==> name[k] != 39u8,
    ensures
        ({
            let s = one_binding_kernel(name, code);
            let l = name.len() as int;
            let n = read_quoted(s, 29, 39u8).2;
            let st0 = initial_scan_state();
            let st1 = ScanState { names: seq![latin1_chars(name)], ..st0 };
            &&& n >= 0
            &&& scan(s, 11, true, 2, st0) == scan(s, 31 + l, true, 3 + n, st1)
        }),
{
    reveal_strlit("NAIF_BODY_NAME");
    let s = one_binding_kernel(name, code);
    let l = name.len() as int;
    lemma_kernel_bytes(name, code);
    let st0 = initial_scan_state();
    assert forall|k: int| 11 <= k < 25 implies is_ident_continue(#[trigger] s[k]) by {
        assert(s[k] == s.subrange(11, 25)[k - 11]);
    }
    assert(upper_seq(s.subrange(11, 25)) =~= name_key());
    assert(latin1_chars(upper_seq(s.subrange(11, 25))) =~= "NAIF_BODY_NAME"@);
    assert forall|k: int| 29 <= k < 29 + l implies s[k] != 39u8 by {
        assert(s[k] == s.subrange(29, 29 + l)[k - 29]);
    }
    lemma_read_quoted_plain(s, 29, 29 + l, 39u8);
    crate::text_lex::lemma_read_quoted_bounds(s, 29, 39u8);
    let r1 = read_quoted(s, 29, 39u8);
    assert(!is_separator(39u8)) by {
        assert((39u8 as char) as u32 == 39);
    }
    let v1 = ValueView::Str(latin1_chars(name));
    assert(read_one_value(s, 28) == Some((30 + l, v1, r1.2)));
    lemma_scan_assignment(s, 11, 14, 2, st0, 30 + l, v1, r1.2);
    let st1 = apply_assignment("NAIF_BODY_NAME"@, seq![v1], 2, st0)->Ok_0;
    assert(st1.names =~= seq![latin1_chars(name)]);
    assert(st1 == ScanState { names: seq![latin1_chars(name)], ..st0 });
    lemma_scan_newline(s, 30 + l, 2 + r1.2, st1);
}

/// The code line and the end of the text.
#[verifier::spinoff_prover]
#[verifier::rlimit(60)]
proof fn lemma_kernel_code_line(name: Seq<u8>, code: i32, line: int, st1: ScanState)
    ensures
        ({
            let s = one_binding_kernel(name, code);
            let l = name.len() as int;
            scan(s, 31 + l, true, line, st1) == Ok::<ScanState, (int, Seq<char>)>(
                ScanState { codes: st1.codes.push(code), ..st1 },
            )
        }),
{
    reveal_strlit("NAIF_BODY_CODE");
    reveal_strlit("NAIF_BODY_NAME");
    let s = one_binding_kernel(name, code);
    let l = name.len() as int;
    let t = i32_text(code);
    lemma_i32_text(code);
    let dl = t.len() as int;
    lemma_kernel_bytes(name, code);
    assert forall|k: int| 31 + l <= k < 45 + l implies is_ident_continue(#[trigger] s[k]) by {
        assert(s[k] == s.subrange(31 + l, 45 + l)[k - 31 - l]);
    }
    assert(upper_seq(s.subrange(31 + l, 45 + l)) =~= code_key());
    assert(latin1_chars(upper_seq(s.subrange(31 + l, 45 + l))) =~= "NAIF_BODY_CODE"@);
    let c0 = s[48 + l];
    assert(c0 == s.subrange(48 + l, 48 + l + dl)[0]);
    assert(c0 == t[0]);
    assert(!is_separator(c0)) by {
        assert((c0 as char) as u32 == c0);
    }
    assert forall|k: int| 49 + l <= k < 48 + l + dl implies #[trigger] is_numeric_continue(s[k]) by {
        assert(s[k] == s.subrange(48 + l, 48 + l + dl)[k - 48 - l]);
    }
    lemma_run_end(s, 49 + l, 48 + l + dl, |x: u8| is_numeric_continue(x));
    let v2 = ValueView::Int(code);
    assert(read_one_value(s, 48 + l) == Some((48 + l + dl, v2, 0int)));
    assert("NAIF_BODY_CODE"@ != "NAIF_BODY_NAME"@) by {
        assert("NAIF_BODY_CODE"@[10] != "NAIF_BODY_NAME"@[10]);
    }
    assert(crate::text_kernel::all_ints(seq![v2]));
    lemma_scan_assignment(s, 31 + l, 14, line, st1, 48 + l + dl, v2, 0);
    let st2 = apply_assignment("NAIF_BODY_CODE"@, seq![v2], line, st1)->Ok_0;
    assert(st2.codes =~= st1.codes.push(code));
    assert(st2 == ScanState { codes: st1.codes.push(code), ..st1 });
    lemma_scan_newline(s, 48 + l + dl, line, st2);
}

/// A kernel that binds one name to one code parses to that one binding:
/// the quoted name is kept byte for byte (case, spaces and underscores
/// included) and every `i32` code, negative ones too, comes back as
/// written.
pub proof fn lemma_one_binding_kernel(name: Seq<u8>, code: i32)
    requires
        forall|k: int| 0 <= k < name.len() ==> name[k] != 39u8,
    ensures
        spec_parse_text_kernel(one_binding_kernel(name, code)) == Ok::<
            TextKernelContentView,
            TextKernelErrorView,
        >(
            TextKernelContentView {
                bindings: seq![(latin1_chars(name), code)],
                leapseconds: None,
                frame_associations: Seq::empty(),
            },
        ),
{
    let s = one_binding_kernel(name, code);
    let l = name.len() as int;
    let st0 = initial_scan_state();
    lemma_kernel_directive(name, code);
    lemma_kernel_name_line(name, code);
    let n = read_quoted(s, 29, 39u8).2;
    let st1 = ScanState { names: seq![latin1_chars(name)], ..st0 };
    lemma_kernel_code_line(name, code, 3 + n, st1);
    let st2 = ScanState { codes: st1.codes.push(code), ..st1 };
    assert(scan(s, 0, false, 1, st0) == Ok::<ScanState, (int, Seq<char>)>(st2));
    assert(st2.codes =~= seq![code]);
    let c = spec_parse_text_kernel(s)->Ok_0;
    assert(c.bindings =~= seq![(latin1_chars(name), code)]);
    assert(c.frame_associations =~= Seq::<(Seq<char>, Seq<char>)>::empty());
}

} // verus!
