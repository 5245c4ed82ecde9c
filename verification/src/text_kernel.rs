//! Text-kernel parser for the supported NAIF kernel-pool subset.
//!
//! Text kernels alternate `\begintext` / `\begindata` blocks; only data
//! blocks carry assignments. Supported assignments:
//!
//! * `NAIF_BODY_NAME` / `NAIF_BODY_CODE` body-name bindings,
//! * the leapseconds-kernel `DELTET/*` values, and
//! * `OBJECT_EARTH_FRAME = 'ITRF93'`.
//!
//! Other assignments are skipped on a best-effort lexical basis; only
//! supported assignments are validated. Reading a kernel file is left to
//! the caller, which hands the text to [`parse_text_kernel_from_str`].

use vstd::prelude::*;
use vstd::string::StringSliceAdditionalSpecFns;

use crate::chars::{
    char_is_whitespace, chars_of, latin1_chars, push_str, str_eq, string_from_bytes,
    unicode_whitespace,
};
use crate::text_lex::{
    byte_is_ident_continue, byte_is_ident_start, bytes_eq_ignore_case, read_identifier,
    skip_assignment_operator, upper_bytes, directive_end, eq_ignore_case, is_alpha, is_ident_continue, is_ident_start, lemma_newlines_bounds,
    lemma_read_items_bounds, lemma_run_end_bounds, read_values, run_end, space_pred,
    spec_directive_end, spec_read_values, spec_skip_operator, upper_seq, values_view, KernelDate,
    Value, ValueView,
};

verus! {

/// Parse errors of the text-kernel reader.
#[derive(Debug)]
pub enum TextKernelError {
    Parse { line: usize, message: String },
    Mismatched { names: usize, codes: usize },
}

pub enum TextKernelErrorView {
    Parse { line: int, message: Seq<char> },
    Mismatched { names: int, codes: int },
}

impl View for TextKernelError {
    type V = TextKernelErrorView;

    open spec fn view(&self) -> TextKernelErrorView {
        match self {
            TextKernelError::Parse { line, message } => TextKernelErrorView::Parse {
                line: *line as int,
                message: message@,
            },
            TextKernelError::Mismatched { names, codes } => TextKernelErrorView::Mismatched {
                names: *names as int,
                codes: *codes as int,
            },
        }
    }
}

/// A single (name, code) binding parsed from a text kernel, in file order.
#[derive(Debug, Clone, PartialEq, Eq)]
pub struct BodyBinding {
    pub name: String,
    pub code: i32,
}

impl View for BodyBinding {
    type V = (Seq<char>, i32);

    open spec fn view(&self) -> (Seq<char>, i32) {
        (self.name@, self.code)
    }
}

/// A body-to-fixed-frame association (`OBJECT_EARTH_FRAME = 'ITRF93'`).
#[derive(Debug, Clone, PartialEq, Eq)]
pub struct FrameAssociation {
    pub body: String,
    pub frame: String,
}

impl View for FrameAssociation {
    type V = (Seq<char>, Seq<char>);

    open spec fn view(&self) -> (Seq<char>, Seq<char>) {
        (self.body@, self.frame@)
    }
}

/// A number from a leapseconds kernel: an integer literal, or the text of
/// a decimal floating-point literal (exponent marker written `E`).
#[derive(Debug, Clone, PartialEq, Eq)]
pub enum KernelNumber {
    Int(i32),
    Decimal(String),
}

pub enum KernelNumberView {
    Int(i32),
    Decimal(Seq<char>),
}

impl View for KernelNumber {
    type V = KernelNumberView;

    open spec fn view(&self) -> KernelNumberView {
        match self {
            KernelNumber::Int(n) => KernelNumberView::Int(*n),
            KernelNumber::Decimal(s) => KernelNumberView::Decimal(s@),
        }
    }
}

/// One `DELTET/DELTA_AT` row.
#[derive(Debug, Clone, PartialEq, Eq)]
pub struct DeltaAtEntry {
    pub leap_seconds: i32,
    pub date: KernelDate,
}

/// Structured contents of a leapseconds kernel.
#[derive(Debug, Clone, PartialEq, Eq)]
pub struct LeapSecondsKernel {
    pub delta_t_a: KernelNumber,
    pub k: KernelNumber,
    pub eb: KernelNumber,
    pub m: [KernelNumber; 2],
    pub delta_at: Vec<DeltaAtEntry>,
}

pub struct LeapSecondsView {
    pub delta_t_a: KernelNumberView,
    pub k: KernelNumberView,
    pub eb: KernelNumberView,
    pub m: (KernelNumberView, KernelNumberView),
    pub delta_at: Seq<DeltaAtEntry>,
}

impl View for LeapSecondsKernel {
    type V = LeapSecondsView;

    open spec fn view(&self) -> LeapSecondsView {
        LeapSecondsView {
            delta_t_a: self.delta_t_a@,
            k: self.k@,
            eb: self.eb@,
            m: (self.m[0]@, self.m[1]@),
            delta_at: self.delta_at@,
        }
    }
}

/// Supported content parsed from a text kernel.
#[derive(Debug, Clone, PartialEq, Eq)]
pub struct TextKernelContent {
    /// `NAIF_BODY_NAME` / `NAIF_BODY_CODE` bindings in file order.
    pub bindings: Vec<BodyBinding>,
    /// Leapseconds-kernel content when a complete `DELTET/*` block is present.
    pub leapseconds: Option<LeapSecondsKernel>,
    /// Supported body-fixed frame associations.
    pub frame_associations: Vec<FrameAssociation>,
}

pub struct TextKernelContentView {
    pub bindings: Seq<(Seq<char>, i32)>,
    pub leapseconds: Option<LeapSecondsView>,
    pub frame_associations: Seq<(Seq<char>, Seq<char>)>,
}

impl View for TextKernelContent {
    type V = TextKernelContentView;

    open spec fn view(&self) -> TextKernelContentView {
        TextKernelContentView {
            bindings: Seq::new(self.bindings@.len(), |i: int| self.bindings@[i]@),
            leapseconds: match &self.leapseconds {
                Some(l) => Some(l@),
                None => None,
            },
            frame_associations: Seq::new(
                self.frame_associations@.len(),
                |i: int| self.frame_associations@[i]@,
            ),
        }
    }
}

impl TextKernelContent {
    /// Returns true when the parser found no supported content.
    pub fn is_empty(&self) -> (r: bool)
        ensures
            r == (self.bindings@.len() == 0 && self.leapseconds is None
                && self.frame_associations@.len() == 0),
    {
        self.bindings.len() == 0 && self.leapseconds.is_none() && self.frame_associations.len()
            == 0
    }
}

// ---- the scan, as a specification ---------------------------------------
pub struct LskState {
    pub first_line: Option<int>,
    pub delta_t_a: Option<KernelNumberView>,
    pub k: Option<KernelNumberView>,
    pub eb: Option<KernelNumberView>,
    pub m: Option<(KernelNumberView, KernelNumberView)>,
    pub delta_at: Option<Seq<DeltaAtEntry>>,
}

pub struct ScanState {
    pub names: Seq<Seq<char>>,
    pub codes: Seq<i32>,
    pub lsk: LskState,
    /// Number of `OBJECT_EARTH_FRAME = 'ITRF93'` associations.
    pub frames: nat,
}

pub open spec fn initial_scan_state() -> ScanState {
    ScanState {
        names: Seq::empty(),
        codes: Seq::empty(),
        lsk: LskState {
            first_line: None,
            delta_t_a: None,
            k: None,
            eb: None,
            m: None,
            delta_at: None,
        },
        frames: 0,
    }
}

pub open spec fn begindata() -> Seq<u8> {
    seq![92u8, 98u8, 101u8, 103u8, 105u8, 110u8, 100u8, 97u8, 116u8, 97u8]
}

pub open spec fn begintext() -> Seq<u8> {
    seq![92u8, 98u8, 101u8, 103u8, 105u8, 110u8, 116u8, 101u8, 120u8, 116u8]
}

pub open spec fn is_supported_key(k: Seq<char>) -> bool {
    k == "NAIF_BODY_NAME"@ || k == "NAIF_BODY_CODE"@ || k == "DELTET/DELTA_T_A"@ || k
        == "DELTET/K"@ || k == "DELTET/EB"@ || k == "DELTET/M"@ || k == "DELTET/DELTA_AT"@ || k
        == "OBJECT_EARTH_FRAME"@
}

pub open spec fn word_boundary_before(s: Seq<u8>, i: int) -> bool {
    i == 0 || !is_ident_continue(s[i - 1])
}

pub open spec fn all_strings(v: Seq<ValueView>) -> bool {
    forall|i: int| 0 <= i < v.len() ==> v[i] is Str
}

pub open spec fn all_ints(v: Seq<ValueView>) -> bool {
    forall|i: int| 0 <= i < v.len() ==> v[i] is Int
}

pub open spec fn number_of(v: ValueView) -> Option<KernelNumberView> {
    match v {
        ValueView::Int(n) => Some(KernelNumberView::Int(n)),
        ValueView::Float(s) => Some(KernelNumberView::Decimal(s)),
        _ => None,
    }
}

/// The `DELTET/DELTA_AT` rows of alternating integer/date values from
/// pair index `p` on, or the message of the first malformed pair.
pub open spec fn delta_at_rows(v: Seq<ValueView>, p: int) -> Result<Seq<DeltaAtEntry>, Seq<char>>
    decreases v.len() - 2 * p,
{
    if p < 0 || 2 * p + 1 >= v.len() {
        Ok(Seq::empty())
    } else if !(v[2 * p] is Int) {
        Err("DELTET/DELTA_AT expects integer leap-second values"@)
    } else if !(v[2 * p + 1] is Date) {
        Err("DELTET/DELTA_AT expects @YYYY-MMM-D date literals"@)
    } else {
        match delta_at_rows(v, p + 1) {
            Err(m) => Err(m),
            Ok(rest) => Ok(
                seq![DeltaAtEntry { leap_seconds: v[2 * p]->Int_0, date: v[2 * p + 1]->Date_0 }]
                    + rest,
            ),
        }
    }
}

pub open spec fn mark_seen(l: LskState, line: int) -> LskState {
    LskState {
        first_line: if l.first_line is None {
            Some(line)
        } else {
            l.first_line
        },
        ..l
    }
}

/// Leading-whitespace end of a character sequence.
pub open spec fn char_trim_start(cs: Seq<char>, j: int) -> int
    decreases cs.len() - j,
{
    if j < 0 || j >= cs.len() || !unicode_whitespace(cs[j]) {
        j
    } else {
        char_trim_start(cs, j + 1)
    }
}

/// Trailing-whitespace start of a character sequence.
pub open spec fn char_trim_end(cs: Seq<char>, e: int) -> int
    decreases e,
{
    if e <= 0 || e > cs.len() || !unicode_whitespace(cs[e - 1]) {
        e
    } else {
        char_trim_end(cs, e - 1)
    }
}

pub open spec fn ascii_lower_char(c: char) -> char {
    if 'A' <= c && c <= 'Z' {
        ((c as u32) + 32) as char
    } else {
        c
    }
}

/// `s.trim()` equals `ITRF93` ignoring ASCII case.
pub open spec fn is_itrf93(cs: Seq<char>) -> bool {
    let a = char_trim_start(cs, 0);
    let e = char_trim_end(cs, cs.len() as int);
    let lit = seq!['i', 't', 'r', 'f', '9', '3'];
    a <= e && e - a == 6 && forall|i: int|
        0 <= i < 6 ==> #[trigger] ascii_lower_char(cs[a + i]) == lit[i]
}

/// Effect of one supported assignment `key = values` at `line`.
pub open spec fn apply_assignment(
    key: Seq<char>,
    v: Seq<ValueView>,
    line: int,
    st: ScanState,
) -> Result<ScanState, (int, Seq<char>)> {
    if key == "NAIF_BODY_NAME"@ {
        if all_strings(v) {
            Ok(ScanState { names: st.names + Seq::new(v.len(), |i: int| v[i]->Str_0), ..st })
        } else {
            Err((line, key + " expects strings"@))
        }
    } else if key == "NAIF_BODY_CODE"@ {
        if all_ints(v) {
            Ok(ScanState { codes: st.codes + Seq::new(v.len(), |i: int| v[i]->Int_0), ..st })
        } else {
            Err((line, key + " expects integers"@))
        }
    } else if key == "DELTET/DELTA_T_A"@ || key == "DELTET/K"@ || key == "DELTET/EB"@ {
        if v.len() == 1 && number_of(v[0]) is Some {
            let n = number_of(v[0]);
            let l = mark_seen(st.lsk, line);
            Ok(
                ScanState {
                    lsk: if key == "DELTET/DELTA_T_A"@ {
                        LskState { delta_t_a: n, ..l }
                    } else if key == "DELTET/K"@ {
                        LskState { k: n, ..l }
                    } else {
                        LskState { eb: n, ..l }
                    },
                    ..st
                },
            )
        } else {
            Err((line, key + " expects one numeric value"@))
        }
    } else if key == "DELTET/M"@ {
        if v.len() != 2 {
            Err((line, key + " expects exactly two numeric values"@))
        } else if number_of(v[0]) is None || number_of(v[1]) is None {
            Err((line, key + " expects numeric values"@))
        } else {
            let l = mark_seen(st.lsk, line);
            Ok(
                ScanState {
                    lsk: LskState { m: Some((number_of(v[0])->0, number_of(v[1])->0)), ..l },
                    ..st
                },
            )
        }
    } else if key == "DELTET/DELTA_AT"@ {
        if v.len() == 0 || v.len() % 2 != 0 {
            Err((line, "DELTET/DELTA_AT expects alternating integer/date pairs"@))
        } else {
            match delta_at_rows(v, 0) {
                Err(m) => Err((line, m)),
                Ok(rows) => {
                    let l = mark_seen(st.lsk, line);
                    Ok(ScanState { lsk: LskState { delta_at: Some(rows), ..l }, ..st })
                },
            }
        }
    } else if key == "OBJECT_EARTH_FRAME"@ {
        if v.len() != 1 || !(v[0] is Str) {
            Err((line, key + " expects one string"@))
        } else if !is_itrf93(v[0]->Str_0) {
            Err((line, key + " currently supports only the ITRF93 frame"@))
        } else {
            Ok(ScanState { frames: st.frames + 1, ..st })
        }
    } else {
        Ok(st)
    }
}

pub proof fn lemma_ident_end(s: Seq<u8>, i: int)
    requires
        0 <= i < s.len(),
        is_ident_start(s[i]),
    ensures
        i < run_end(s, i, |x: u8| is_ident_continue(x)) <= s.len(),
{
    lemma_run_end_bounds(s, i + 1, |x: u8| is_ident_continue(x));
}

pub proof fn lemma_operator_bounds(s: Seq<u8>, i: int)
    requires
        0 <= i <= s.len(),
    ensures
        spec_skip_operator(s, i) matches Some((e, d)) ==> i < e <= s.len() && 0 <= d <= e - i,
{
    lemma_run_end_bounds(s, i, space_pred());
    lemma_newlines_bounds(s, i, run_end(s, i, space_pred()));
}

pub proof fn lemma_read_values_bounds(s: Seq<u8>, i: int)
    requires
        0 <= i <= s.len(),
    ensures
        i <= spec_read_values(s, i).0 <= s.len(),
        0 <= spec_read_values(s, i).2 <= spec_read_values(s, i).0 - i,
{
    let j = run_end(s, i, space_pred());
    lemma_run_end_bounds(s, i, space_pred());
    lemma_newlines_bounds(s, i, j);
    let paren = j < s.len() && s[j] == 40u8;
    let k = if paren {
        j + 1
    } else {
        j
    };
    lemma_read_items_bounds(s, k, paren);
}

/// The newline count of one byte.
pub open spec fn nl(b: u8) -> int {
    if b == 10u8 {
        1
    } else {
        0
    }
}

/// The scan of the text from byte `i`: `in_data` tells whether a data
/// block is open, `line` is the current line number.
pub open spec fn scan(s: Seq<u8>, i: int, in_data: bool, line: int, st: ScanState) -> Result<
    ScanState,
    (int, Seq<char>),
>
    decreases s.len() - i,
{
    if i < 0 || i >= s.len() {
        Ok(st)
    } else {
        let c = s[i];
        let dir = if c == 92u8 {
            spec_directive_end(s, i)
        } else {
            None
        };
        proof {
            lemma_run_end_bounds(s, i + 1, |x: u8| is_alpha(x));
        }
        if dir is Some && i < dir->0 && eq_ignore_case(s, i, dir->0, begindata()) {
            scan(s, dir->0, true, line, st)
        } else if dir is Some && i < dir->0 && eq_ignore_case(s, i, dir->0, begintext()) {
            scan(s, dir->0, false, line, st)
        } else if !in_data {
            scan(s, i + 1, in_data, line + nl(c), st)
        } else if is_ident_start(c) && word_boundary_before(s, i) {
            proof {
                lemma_ident_end(s, i);
            }
            let end = run_end(s, i, |x: u8| is_ident_continue(x));
            let key = latin1_chars(upper_seq(s.subrange(i, end)));
            proof {
                lemma_operator_bounds(s, end);
            }
            match spec_skip_operator(s, end) {
                None => if is_supported_key(key) {
                    Err((line, "expected '=' or '+='"@ + " after "@ + key))
                } else {
                    scan(s, end, in_data, line, st)
                },
                Some((after_op, d1)) => {
                    proof {
                        lemma_read_values_bounds(s, after_op);
                    }
                    let r = spec_read_values(s, after_op);
                    if is_supported_key(key) {
                        match apply_assignment(key, r.1, line + d1, st) {
                            Err(e) => Err(e),
                            Ok(st2) => scan(s, r.0, in_data, line + d1 + r.2, st2),
                        }
                    } else {
                        scan(s, r.0, in_data, line + d1 + r.2, st)
                    }
                },
            }
        } else {
            scan(s, i + 1, in_data, line + nl(c), st)
        }
    }
}

/// Completion of the leapseconds fields: `None` when no `DELTET/*`
/// assignment was seen; otherwise all five are required.
pub open spec fn finish_lsk(l: LskState) -> Result<Option<LeapSecondsView>, (int, Seq<char>)> {
    match l.first_line {
        None => Ok(None),
        Some(line) => {
            let missing = "incomplete leapseconds kernel: missing "@;
            if l.delta_t_a is None {
                Err((line, missing + "DELTET/DELTA_T_A"@))
            } else if l.k is None {
                Err((line, missing + "DELTET/K"@))
            } else if l.eb is None {
                Err((line, missing + "DELTET/EB"@))
            } else if l.m is None {
                Err((line, missing + "DELTET/M"@))
            } else if l.delta_at is None {
                Err((line, missing + "DELTET/DELTA_AT"@))
            } else {
                Ok(
                    Some(
                        LeapSecondsView {
                            delta_t_a: l.delta_t_a->0,
                            k: l.k->0,
                            eb: l.eb->0,
                            m: l.m->0,
                            delta_at: l.delta_at->0,
                        },
                    ),
                )
            }
        },
    }
}

pub open spec fn earth_itrf93() -> (Seq<char>, Seq<char>) {
    ("EARTH"@, "ITRF93"@)
}

/// What parsing the bytes `s` of a text kernel yields.
pub open spec fn spec_parse_text_kernel(s: Seq<u8>) -> Result<
    TextKernelContentView,
    TextKernelErrorView,
> {
    match scan(s, 0, false, 1, initial_scan_state()) {
        Err((line, message)) => Err(TextKernelErrorView::Parse { line, message }),
        Ok(st) => if st.names.len() != st.codes.len() {
            Err(
                TextKernelErrorView::Mismatched {
                    names: st.names.len() as int,
                    codes: st.codes.len() as int,
                },
            )
        } else {
            match finish_lsk(st.lsk) {
                Err((line, message)) => Err(TextKernelErrorView::Parse { line, message }),
                Ok(lsk) => Ok(
                    TextKernelContentView {
                        bindings: Seq::new(st.names.len(), |i: int| (st.names[i], st.codes[i])),
                        leapseconds: lsk,
                        frame_associations: Seq::new(st.frames, |i: int| earth_itrf93()),
                    },
                ),
            }
        },
    }
}

/// A `\begindata` directive at byte `j`: a backslash, then a run of
/// letters spelling `begindata` in any case.
pub open spec fn begindata_at(s: Seq<u8>, j: int) -> bool {
    &&& 0 <= j < s.len()
    &&& s[j] == 92u8
    &&& spec_directive_end(s, j) matches Some(e) && j < e && eq_ignore_case(s, j, e, begindata())
}

proof fn lemma_scan_without_data(s: Seq<u8>, i: int, line: int, st: ScanState)
    requires
        0 <= i,
        forall|j: int| i <= j < s.len() ==> !#[trigger] begindata_at(s, j),
    ensures
        scan(s, i, false, line, st) == Ok::<ScanState, (int, Seq<char>)>(st),
    decreases s.len() - i,
{
    if i < s.len() {
        assert(!begindata_at(s, i));
        lemma_run_end_bounds(s, i + 1, |x: u8| is_alpha(x));
        let dir = if s[i] == 92u8 {
            spec_directive_end(s, i)
        } else {
            None
        };
        if dir is Some && i < dir->0 && eq_ignore_case(s, i, dir->0, begintext()) {
            lemma_scan_without_data(s, dir->0, line, st);
        } else {
            lemma_scan_without_data(s, i + 1, line + nl(s[i]), st);
        }
    }
}

/// Text outside `\begindata` blocks is commentary: a kernel without a
/// `\begindata` directive has no bindings, no leapseconds and no frame
/// associations.
pub proof fn lemma_no_data_block_no_content(s: Seq<u8>)
    requires
        forall|j: int| 0 <= j < s.len() ==> !#[trigger] begindata_at(s, j),
    ensures
        spec_parse_text_kernel(s) == Ok::<TextKernelContentView, TextKernelErrorView>(
            TextKernelContentView {
                bindings: Seq::empty(),
                leapseconds: None,
                frame_associations: Seq::empty(),
            },
        ),
{
    lemma_scan_without_data(s, 0, 1, initial_scan_state());
    let c = spec_parse_text_kernel(s)->Ok_0;
    assert(c.bindings =~= Seq::<(Seq<char>, i32)>::empty());
    assert(c.frame_associations =~= Seq::<(Seq<char>, Seq<char>)>::empty());
}

/// What the `\begindata` blocks of the text `s` assign, in text order:
/// the `NAIF_BODY_NAME` strings, the `NAIF_BODY_CODE` integers, the
/// `DELTET/*` fields (the last value of each, and the line of the first)
/// and the `OBJECT_EARTH_FRAME` count; or the first malformed assignment.
pub open spec fn collected(s: Seq<u8>) -> Result<ScanState, (int, Seq<char>)> {
    scan(s, 0, false, 1, initial_scan_state())
}

/// Names and codes pair up in file order: when no supported assignment is
/// malformed, unequal counts of collected names and codes are refused as
/// `Mismatched`; otherwise, once any leapseconds block is complete, the
/// bindings are the collected names zipped with the collected codes.
pub proof fn lemma_bindings_pair_in_order(s: Seq<u8>)
    requires
        collected(s) is Ok,
    ensures
        ({
        let st = collected(s)->Ok_0;
        &&& st.names.len() != st.codes.len() ==> spec_parse_text_kernel(s) == Err::<
            TextKernelContentView,
            TextKernelErrorView,
        >(
            TextKernelErrorView::Mismatched {
                names: st.names.len() as int,
                codes: st.codes.len() as int,
            },
        )
        &&& st.names.len() == st.codes.len() && finish_lsk(st.lsk) is Ok ==> (spec_parse_text_kernel(
            s,
        ) matches Ok(c) && c.bindings.len() == st.names.len() && forall|i: int|
            0 <= i < st.names.len() ==> #[trigger] c.bindings[i] == (st.names[i], st.codes[i]))
        }),
{
}

/// Leapseconds fields are all or nothing: with no `DELTET/*` assignment
/// there is no leapseconds kernel; with all five there is one holding the
/// values assigned; otherwise the parse fails at the line of the first
/// `DELTET/*` assignment, naming the first field missing in the order
/// `DELTA_T_A`, `K`, `EB`, `M`, `DELTA_AT`.
pub proof fn lemma_leapseconds_all_or_nothing(s: Seq<u8>)
    requires
        collected(s) is Ok,
        collected(s)->Ok_0.names.len() == collected(s)->Ok_0.codes.len(),
    ensures
        ({
        let st = collected(s)->Ok_0;
        &&& (st.lsk.first_line is None ==> (spec_parse_text_kernel(s) matches Ok(c) && c.leapseconds is None))
        &&& (st.lsk.first_line is Some && st.lsk.delta_t_a is Some && st.lsk.k is Some && st.lsk.eb is Some
            && st.lsk.m is Some && st.lsk.delta_at is Some ==> (spec_parse_text_kernel(s) matches Ok(c)
            && c.leapseconds == Some(
            LeapSecondsView {
                delta_t_a: st.lsk.delta_t_a->0,
                k: st.lsk.k->0,
                eb: st.lsk.eb->0,
                m: st.lsk.m->0,
                delta_at: st.lsk.delta_at->0,
            },
        )))
        &&& (st.lsk.first_line is Some && st.lsk.delta_t_a is None ==> spec_parse_text_kernel(s) == Err::<
            TextKernelContentView,
            TextKernelErrorView,
        >(
            TextKernelErrorView::Parse {
                line: st.lsk.first_line->0,
                message: "incomplete leapseconds kernel: missing "@ + "DELTET/DELTA_T_A"@,
            },
        ))
        &&& (st.lsk.first_line is Some && st.lsk.delta_t_a is Some && st.lsk.k is None
            ==> spec_parse_text_kernel(s) == Err::<TextKernelContentView, TextKernelErrorView>(
            TextKernelErrorView::Parse {
                line: st.lsk.first_line->0,
                message: "incomplete leapseconds kernel: missing "@ + "DELTET/K"@,
            },
        ))
        &&& (st.lsk.first_line is Some && st.lsk.delta_t_a is Some && st.lsk.k is Some && st.lsk.eb is None
            ==> spec_parse_text_kernel(s) == Err::<TextKernelContentView, TextKernelErrorView>(
            TextKernelErrorView::Parse {
                line: st.lsk.first_line->0,
                message: "incomplete leapseconds kernel: missing "@ + "DELTET/EB"@,
            },
        ))
        &&& (st.lsk.first_line is Some && st.lsk.delta_t_a is Some && st.lsk.k is Some && st.lsk.eb is Some
            && st.lsk.m is None ==> spec_parse_text_kernel(s) == Err::<
            TextKernelContentView,
            TextKernelErrorView,
        >(
            TextKernelErrorView::Parse {
                line: st.lsk.first_line->0,
                message: "incomplete leapseconds kernel: missing "@ + "DELTET/M"@,
            },
        ))
        &&& (st.lsk.first_line is Some && st.lsk.delta_t_a is Some && st.lsk.k is Some && st.lsk.eb is Some
            && st.lsk.m is Some && st.lsk.delta_at is None ==> spec_parse_text_kernel(s) == Err::<
            TextKernelContentView,
            TextKernelErrorView,
        >(
            TextKernelErrorView::Parse {
                line: st.lsk.first_line->0,
                message: "incomplete leapseconds kernel: missing "@ + "DELTET/DELTA_AT"@,
            },
        ))
        }),
{
}

// ---- the scan, executed ---------------------------------------------------
struct LskBuilder {
    first_line: Option<usize>,
    delta_t_a: Option<KernelNumber>,
    k: Option<KernelNumber>,
    eb: Option<KernelNumber>,
    m: Option<[KernelNumber; 2]>,
    delta_at: Option<Vec<DeltaAtEntry>>,
}

pub open spec fn num_opt_view(o: Option<KernelNumber>) -> Option<KernelNumberView> {
    match o {
        Some(n) => Some(n@),
        None => None,
    }
}

impl View for LskBuilder {
    type V = LskState;

    closed spec fn view(&self) -> LskState {
        LskState {
            first_line: match self.first_line {
                Some(l) => Some(l as int),
                None => None,
            },
            delta_t_a: num_opt_view(self.delta_t_a),
            k: num_opt_view(self.k),
            eb: num_opt_view(self.eb),
            m: match self.m {
                Some(m) => Some((m[0]@, m[1]@)),
                None => None,
            },
            delta_at: match self.delta_at {
                Some(d) => Some(d@),
                None => None,
            },
        }
    }
}

struct ScanBuffers {
    names: Vec<String>,
    codes: Vec<i32>,
    lsk: LskBuilder,
    frames: Vec<FrameAssociation>,
}

impl ScanBuffers {
    spec fn wf(&self) -> bool {
        forall|i: int| 0 <= i < self.frames@.len() ==> self.frames@[i]@ == earth_itrf93()
    }

    spec fn state(&self) -> ScanState {
        ScanState {
            names: Seq::new(self.names@.len(), |i: int| self.names@[i]@),
            codes: self.codes@,
            lsk: self.lsk@,
            frames: self.frames@.len(),
        }
    }
}

fn concat2(a: &str, b: &str) -> (r: String)
    ensures
        r@ == a@ + b@,
{
    let mut out = String::new();
    push_str(&mut out, a);
    push_str(&mut out, b);
    assert(Seq::<char>::empty() + a@ == a@);
    out
}

fn parse_error(line: usize, message: String) -> (r: TextKernelError)
    ensures
        r@ == (TextKernelErrorView::Parse { line: line as int, message: message@ }),
{
    TextKernelError::Parse { line, message }
}

fn number_of_value(v: &Value) -> (r: Option<KernelNumber>)
    ensures
        num_opt_view(r) == number_of(v@),
{
    match v {
        Value::Int(n) => Some(KernelNumber::Int(*n)),
        Value::Float(s) => Some(KernelNumber::Decimal(s.clone())),
        _ => None,
    }
}

fn mark_seen_exec(l: &mut LskBuilder, line: usize)
    ensures
        final(l)@ == mark_seen(old(l)@, line as int),
{
    if l.first_line.is_none() {
        l.first_line = Some(line);
    }
}

/// Whether the text of `s`, trimmed, is `ITRF93` ignoring ASCII case.
fn itrf93_exec(s: &String) -> (r: bool)
    ensures
        r == is_itrf93(s@),
{
    let cs = chars_of(s.as_str());
    let n = cs.len();
    let mut a: usize = 0;
    while a < n && char_is_whitespace(cs[a])
        invariant
            n == cs@.len(),
            a <= n,
            char_trim_start(cs@, a as int) == char_trim_start(cs@, 0),
        decreases n - a,
    {
        a += 1;
    }
    let mut e: usize = n;
    while e > 0 && char_is_whitespace(cs[e - 1])
        invariant
            n == cs@.len(),
            e <= n,
            char_trim_end(cs@, e as int) == char_trim_end(cs@, n as int),
        decreases e,
    {
        e -= 1;
    }
    assert(char_trim_start(cs@, a as int) == a);
    assert(char_trim_end(cs@, e as int) == e);
    if a > e || e - a != 6 {
        return false;
    }
    let lit = ['i', 't', 'r', 'f', '9', '3'];
    let ghost litseq = seq!['i', 't', 'r', 'f', '9', '3'];
    let mut k: usize = 0;
    while k < 6
        invariant
            n == cs@.len(),
            cs@ == s@,
            a == char_trim_start(cs@, 0),
            e == char_trim_end(cs@, n as int),
            a <= e <= n,
            e - a == 6,
            lit@ == litseq,
            litseq == seq!['i', 't', 'r', 'f', '9', '3'],
            k <= 6,
            forall|j: int| 0 <= j < k ==> #[trigger] ascii_lower_char(cs@[a + j]) == litseq[j],
        decreases 6 - k,
    {
        let c = cs[a + k];
        let lc = if 'A' <= c && c <= 'Z' {
            ((c as u32) + 32) as u8 as char
        } else {
            c
        };
        assert(lc == ascii_lower_char(c));
        if lc != lit[k] {
            proof {
                let ai = a as int;
                let ki = k as int;
                assert(ascii_lower_char(cs@[ai + ki]) != litseq[ki]);
                assert(!(forall|i: int|
                    0 <= i < 6 ==> #[trigger] ascii_lower_char(cs@[ai + i]) == litseq[i]));
            }
            return false;
        }
        k += 1;
    }
    assert(s@ == cs@);
    true
}

fn owned(lit: &str) -> (r: String)
    ensures
        r@ == lit@,
{
    let mut out = String::new();
    push_str(&mut out, lit);
    assert(Seq::<char>::empty() + lit@ == lit@);
    out
}

fn delta_at_exec(values: &Vec<Value>) -> (r: Result<Vec<DeltaAtEntry>, String>)
    requires
        values@.len() % 2 == 0,
    ensures
        match delta_at_rows(values_view(values@), 0) {
            Ok(rows) => r matches Ok(x) && x@ == rows,
            Err(m) => r matches Err(x) && x@ == m,
        },
{
    let ghost v = values_view(values@);
    let ghost total = delta_at_rows(v, 0);
    let mut out: Vec<DeltaAtEntry> = Vec::new();
    let mut idx: usize = 0;
    while idx < values.len()
        invariant
            v == values_view(values@),
            values@.len() % 2 == 0,
            idx % 2 == 0,
            idx <= values@.len(),
            total == delta_at_rows(v, 0),
            match delta_at_rows(v, (idx / 2) as int) {
                Ok(rest) => total == Ok::<Seq<DeltaAtEntry>, Seq<char>>(out@ + rest),
                Err(m) => total == Err::<Seq<DeltaAtEntry>, Seq<char>>(m),
            },
        decreases values@.len() - idx,
    {
        let ghost p = (idx / 2) as int;
        assert(2 * p == idx);
        assert(v[2 * p] == values@[idx as int]@);
        assert(v[2 * p + 1] == values@[idx + 1]@);
        let leap = match &values[idx] {
            Value::Int(n) => *n,
            _ => return Err(owned("DELTET/DELTA_AT expects integer leap-second values")),
        };
        let date = match &values[idx + 1] {
            Value::Date(d) => *d,
            _ => return Err(owned("DELTET/DELTA_AT expects @YYYY-MMM-D date literals")),
        };
        let ghost old_out = out@;
        out.push(DeltaAtEntry { leap_seconds: leap, date });
        proof {
            let e = DeltaAtEntry { leap_seconds: leap, date };
            match delta_at_rows(v, p + 1) {
                Ok(rest) => {
                    assert(old_out + (seq![e] + rest) == old_out.push(e) + rest);
                },
                Err(m) => {},
            }
        }
        idx += 2;
        assert(idx / 2 == p + 1);
    }
    assert(delta_at_rows(v, (idx / 2) as int) == Ok::<Seq<DeltaAtEntry>, Seq<char>>(Seq::empty()));
    assert(out@ + Seq::<DeltaAtEntry>::empty() == out@);
    Ok(out)
}

pub open spec fn names_view(names: Seq<String>) -> Seq<Seq<char>> {
    Seq::new(names.len(), |i: int| names[i]@)
}

fn append_strings(
    key: &String,
    values: &Vec<Value>,
    line: usize,
    names: &mut Vec<String>,
) -> (r: Result<(), TextKernelError>)
    ensures
        ({
            let v = values_view(values@);
            if all_strings(v) {
                r is Ok && names_view(final(names)@) == names_view(old(names)@) + Seq::new(
                    v.len(),
                    |i: int| v[i]->Str_0,
                )
            } else {
                r matches Err(e) && e@ == (TextKernelErrorView::Parse {
                    line: line as int,
                    message: key@ + " expects strings"@,
                })
            }
        }),
{
    let ghost v = values_view(values@);
    let ghost base = names_view(names@);
    let mut i: usize = 0;
    while i < values.len()
        invariant
            v == values_view(values@),
            i <= values@.len(),
            forall|j: int| 0 <= j < i ==> v[j] is Str,
            names_view(names@) == base + Seq::new(i as nat, |j: int| v[j]->Str_0),
        decreases values@.len() - i,
    {
        assert(v[i as int] == values@[i as int]@);
        match &values[i] {
            Value::Str(s) => {
                let ghost before = names@;
                let c = s.clone();
                assert(c@ == s@);
                names.push(c);
                assert(v[i as int] == ValueView::Str(s@));
                assert(names_view(names@) =~= names_view(before).push(s@));
                assert(names_view(names@) =~= base + Seq::new((i + 1) as nat, |j: int| v[j]->Str_0));
            },
            _ => {
                return Err(parse_error(line, concat2(key.as_str(), " expects strings")));
            },
        }
        i += 1;
    }
    Ok(())
}

fn append_ints(key: &String, values: &Vec<Value>, line: usize, codes: &mut Vec<i32>) -> (r: Result<
    (),
    TextKernelError,
>)
    ensures
        ({
            let v = values_view(values@);
            if all_ints(v) {
                r is Ok && final(codes)@ == old(codes)@ + Seq::new(v.len(), |i: int| v[i]->Int_0)
            } else {
                r matches Err(e) && e@ == (TextKernelErrorView::Parse {
                    line: line as int,
                    message: key@ + " expects integers"@,
                })
            }
        }),
{
    let ghost v = values_view(values@);
    let ghost base = codes@;
    let mut i: usize = 0;
    while i < values.len()
        invariant
            v == values_view(values@),
            i <= values@.len(),
            forall|j: int| 0 <= j < i ==> v[j] is Int,
            codes@ == base + Seq::new(i as nat, |j: int| v[j]->Int_0),
        decreases values@.len() - i,
    {
        assert(v[i as int] == values@[i as int]@);
        match &values[i] {
            Value::Int(n) => {
                codes.push(*n);
                assert(codes@ =~= base + Seq::new((i + 1) as nat, |j: int| v[j]->Int_0));
            },
            _ => {
                return Err(parse_error(line, concat2(key.as_str(), " expects integers")));
            },
        }
        i += 1;
    }
    Ok(())
}

/// The exec side of [`apply_assignment`].
fn apply_assignment_exec(key: &String, values: Vec<Value>, line: usize, buf: &mut ScanBuffers) -> (r:
    Result<(), TextKernelError>)
    requires
        old(buf).wf(),
    ensures
        final(buf).wf(),
        match apply_assignment(key@, values_view(values@), line as int, old(buf).state()) {
            Ok(st) => r is Ok && final(buf).state() == st,
            Err((l, m)) => r matches Err(e) && e@ == (TextKernelErrorView::Parse {
                line: l,
                message: m,
            }),
        },
{
    let ghost v = values_view(values@);
    let ghost st = buf.state();
    let k = key.as_str();
    if str_eq(k, "NAIF_BODY_NAME") {
        let r = append_strings(key, &values, line, &mut buf.names);
        proof {
            if r is Ok {
                assert(buf.state() =~= ScanState { names: st.names + Seq::new(v.len(), |i: int| v[i]->Str_0), ..st });
            }
        }
        return r;
    }
    if str_eq(k, "NAIF_BODY_CODE") {
        let r = append_ints(key, &values, line, &mut buf.codes);
        return r;
    }
    let is_dta = str_eq(k, "DELTET/DELTA_T_A");
    let is_k = str_eq(k, "DELTET/K");
    let is_eb = str_eq(k, "DELTET/EB");
    if is_dta || is_k || is_eb {
        if values.len() != 1 {
            return Err(parse_error(line, concat2(k, " expects one numeric value")));
        }
        assert(v[0] == values@[0]@);
        let n = match number_of_value(&values[0]) {
            Some(n) => n,
            None => return Err(parse_error(line, concat2(k, " expects one numeric value"))),
        };
        mark_seen_exec(&mut buf.lsk, line);
        if is_dta {
            buf.lsk.delta_t_a = Some(n);
        } else if is_k {
            buf.lsk.k = Some(n);
        } else {
            buf.lsk.eb = Some(n);
        }
        return Ok(());
    }
    if str_eq(k, "DELTET/M") {
        if values.len() != 2 {
            return Err(parse_error(line, concat2(k, " expects exactly two numeric values")));
        }
        assert(v[0] == values@[0]@);
        assert(v[1] == values@[1]@);
        let a = number_of_value(&values[0]);
        let b = number_of_value(&values[1]);
        match (a, b) {
            (Some(a), Some(b)) => {
                mark_seen_exec(&mut buf.lsk, line);
                buf.lsk.m = Some([a, b]);
                return Ok(());
            },
            _ => return Err(parse_error(line, concat2(k, " expects numeric values"))),
        }
    }
    if str_eq(k, "DELTET/DELTA_AT") {
        if values.len() == 0 || values.len() % 2 != 0 {
            return Err(
                parse_error(line, owned("DELTET/DELTA_AT expects alternating integer/date pairs")),
            );
        }
        match delta_at_exec(&values) {
            Err(m) => return Err(parse_error(line, m)),
            Ok(rows) => {
                mark_seen_exec(&mut buf.lsk, line);
                buf.lsk.delta_at = Some(rows);
                return Ok(());
            },
        }
    }
    if str_eq(k, "OBJECT_EARTH_FRAME") {
        if values.len() != 1 {
            return Err(parse_error(line, concat2(k, " expects one string")));
        }
        assert(v[0] == values@[0]@);
        let ok = match &values[0] {
            Value::Str(s) => itrf93_exec(s),
            _ => return Err(parse_error(line, concat2(k, " expects one string"))),
        };
        if !ok {
            return Err(parse_error(line, concat2(k, " currently supports only the ITRF93 frame")));
        }
        let fa = FrameAssociation { body: owned("EARTH"), frame: owned("ITRF93") };
        buf.frames.push(fa);
        proof {
            assert(buf.state() =~= ScanState { frames: st.frames + 1, ..st });
        }
        return Ok(());
    }
    Ok(())
}

fn is_supported_key_exec(k: &String) -> (r: bool)
    ensures
        r == is_supported_key(k@),
{
    let k = k.as_str();
    str_eq(k, "NAIF_BODY_NAME") || str_eq(k, "NAIF_BODY_CODE") || str_eq(k, "DELTET/DELTA_T_A")
        || str_eq(k, "DELTET/K") || str_eq(k, "DELTET/EB") || str_eq(k, "DELTET/M") || str_eq(
        k,
        "DELTET/DELTA_AT",
    ) || str_eq(k, "OBJECT_EARTH_FRAME")
}

fn finish_lsk_exec(l: LskBuilder) -> (r: Result<Option<LeapSecondsKernel>, TextKernelError>)
    ensures
        match finish_lsk(l@) {
            Ok(None) => r matches Ok(None),
            Ok(Some(v)) => r matches Ok(Some(x)) && x@ == v,
            Err((line, m)) => r matches Err(e) && e@ == (TextKernelErrorView::Parse {
                line,
                message: m,
            }),
        },
{
    let line = match l.first_line {
        None => return Ok(None),
        Some(line) => line,
    };
    let missing = "incomplete leapseconds kernel: missing ";
    let delta_t_a = match l.delta_t_a {
        Some(x) => x,
        None => return Err(parse_error(line, concat2(missing, "DELTET/DELTA_T_A"))),
    };
    let k = match l.k {
        Some(x) => x,
        None => return Err(parse_error(line, concat2(missing, "DELTET/K"))),
    };
    let eb = match l.eb {
        Some(x) => x,
        None => return Err(parse_error(line, concat2(missing, "DELTET/EB"))),
    };
    let m = match l.m {
        Some(x) => x,
        None => return Err(parse_error(line, concat2(missing, "DELTET/M"))),
    };
    let delta_at = match l.delta_at {
        Some(x) => x,
        None => return Err(parse_error(line, concat2(missing, "DELTET/DELTA_AT"))),
    };
    Ok(Some(LeapSecondsKernel { delta_t_a, k, eb, m, delta_at }))
}

/// Parse an in-memory text kernel and return all supported content. A
/// text without a `\begindata` directive has none.
pub fn parse_text_kernel_from_str(text: &str) -> (r: Result<TextKernelContent, TextKernelError>)
    requires
        text.spec_bytes().len() < usize::MAX,
    ensures
        match spec_parse_text_kernel(text.spec_bytes()) {
            Ok(c) => r matches Ok(x) && x@ == c,
            Err(e) => r matches Err(x) && x@ == e,
        },
        (forall|j: int| 0 <= j < text.spec_bytes().len() ==> !#[trigger] begindata_at(text.spec_bytes(), j))
            ==> (r matches Ok(x) && x.bindings@.len() == 0 && x.leapseconds is None
            && x.frame_associations@.len() == 0),
{
    proof {
        if forall|j: int| 0 <= j < text.spec_bytes().len() ==> !#[trigger] begindata_at(text.spec_bytes(), j) {
            lemma_no_data_block_no_content(text.spec_bytes());
        }
    }
    let r = scan_text_kernel(text);
    proof {
        if let Ok(x) = &r {
            assert(x@.bindings.len() == x.bindings@.len());
            assert(x@.frame_associations.len() == x.frame_associations@.len());
        }
    }
    r
}

/// The scan of a text kernel, executed.
fn scan_text_kernel(text: &str) -> (r: Result<TextKernelContent, TextKernelError>)
    requires
        text.spec_bytes().len() < usize::MAX,
    ensures
        match spec_parse_text_kernel(text.spec_bytes()) {
            Ok(c) => r matches Ok(x) && x@ == c,
            Err(e) => r matches Err(x) && x@ == e,
        },
{
    let b = text.as_bytes();
    let n = b.len();
    let bd: [u8; 10] = [92, 98, 101, 103, 105, 110, 100, 97, 116, 97];
    let bt: [u8; 10] = [92, 98, 101, 103, 105, 110, 116, 101, 120, 116];
    assert(bd@ == begindata());
    assert(bt@ == begintext());
    let mut buf = ScanBuffers {
        names: Vec::new(),
        codes: Vec::new(),
        lsk: LskBuilder {
            first_line: None,
            delta_t_a: None,
            k: None,
            eb: None,
            m: None,
            delta_at: None,
        },
        frames: Vec::new(),
    };
    assert(buf.state().names =~= Seq::<Seq<char>>::empty());
    assert(buf.state().codes =~= Seq::<i32>::empty());
    assert(buf.state() == initial_scan_state());
    let ghost total = scan(b@, 0, false, 1, initial_scan_state());
    let mut in_data = false;
    let mut line: usize = 1;
    let mut i: usize = 0;
    while i < n
        invariant
            b@ == text.spec_bytes(),
            n == b@.len(),
            n < usize::MAX,
            bd@ == begindata(),
            bt@ == begintext(),
            i <= n,
            1 <= line <= i + 1,
            buf.wf(),
            scan(b@, i as int, in_data, line as int, buf.state()) == total,
            total == scan(b@, 0, false, 1, initial_scan_state()),
        decreases n - i,
    {
        let c = b[i];
        if c == 92 {
            proof {
                lemma_run_end_bounds(b@, i + 1, |x: u8| is_alpha(x));
            }
            if let Some(we) = directive_end(b, i) {
                if bytes_eq_ignore_case(b, i, we, &bd) {
                    in_data = true;
                    i = we;
                    continue ;
                }
                if bytes_eq_ignore_case(b, i, we, &bt) {
                    in_data = false;
                    i = we;
                    continue ;
                }
            }
        }
        if !in_data {
            if c == 10 {
                line += 1;
            }
            i += 1;
            continue ;
        }
        if byte_is_ident_start(c) && (i == 0 || !byte_is_ident_continue(b[i - 1])) {
            proof {
                lemma_ident_end(b@, i as int);
            }
            let end = read_identifier(b, i);
            let upper = upper_bytes(b, i, end);
            let us = upper.as_slice();
            let key = string_from_bytes(us, 0, us.len());
            assert(us@.subrange(0, us@.len() as int) == us@);
            let supported = is_supported_key_exec(&key);
            proof {
                lemma_operator_bounds(b@, end as int);
            }
            match skip_assignment_operator(b, end) {
                None => {
                    if supported {
                        let mut msg = concat2("expected '=' or '+='", " after ");
                        push_str(&mut msg, key.as_str());
                        assert(key@ == latin1_chars(upper_seq(b@.subrange(i as int, end as int))));
                        assert(word_boundary_before(b@, i as int));
                        assert(scan(b@, i as int, in_data, line as int, buf.state()) == Err::<ScanState, (int, Seq<char>)>((line as int, msg@)));
                        return Err(parse_error(line, msg));
                    }
                    i = end;
                    continue ;
                },
                Some((after_op, d1)) => {
                    let (after_vals, values, d2) = read_values(b, after_op);
                    if supported {
                        let res = apply_assignment_exec(&key, values, line + d1, &mut buf);
                        if let Err(e) = res {
                            return Err(e);
                        }
                    }
                    line = line + d1 + d2;
                    i = after_vals;
                    continue ;
                },
            }
        }
        if c == 10 {
            line += 1;
        }
        i += 1;
    }
    let ghost fin = buf.state();
    assert(scan(b@, i as int, in_data, line as int, fin) == Ok::<ScanState, (int, Seq<char>)>(fin));
    assert(total == Ok::<ScanState, (int, Seq<char>)>(fin));
    let ScanBuffers { names, codes, lsk, frames } = buf;
    assert(fin.names.len() == names@.len());
    if names.len() != codes.len() {
        return Err(TextKernelError::Mismatched { names: names.len(), codes: codes.len() });
    }
    let lsk_out = match finish_lsk_exec(lsk) {
        Ok(x) => x,
        Err(e) => return Err(e),
    };
    let mut bindings: Vec<BodyBinding> = Vec::new();
    let mut j: usize = 0;
    while j < names.len()
        invariant
            names@.len() == codes@.len(),
            j <= names@.len(),
            bindings@.len() == j,
            forall|t: int| 0 <= t < j ==> #[trigger] bindings@[t]@ == (names@[t]@, codes@[t]),
        decreases names@.len() - j,
    {
        let nm = names[j].clone();
        bindings.push(BodyBinding { name: nm, code: codes[j] });
        j += 1;
    }
    let out = TextKernelContent { bindings, leapseconds: lsk_out, frame_associations: frames };
    proof {
        assert(out@.bindings =~= Seq::new(names@.len(), |t: int| (names@[t]@, codes@[t])));
        assert(out@.bindings =~= Seq::new(fin.names.len(), |t: int| (fin.names[t], fin.codes[t])));
        assert(out@.frame_associations =~= Seq::new(fin.frames, |t: int| earth_itrf93()));
        assert(finish_lsk(fin.lsk) is Ok);
        assert(out@.leapseconds == finish_lsk(fin.lsk)->Ok_0);
    }
    Ok(out)
}

/// Parse an in-memory text kernel and return its body bindings only.
/// Like the full parser, this validates every supported assignment and
/// fails on malformed leapseconds or frame content.
pub fn parse_body_bindings_from_str(text: &str) -> (r: Result<Vec<BodyBinding>, TextKernelError>)
    requires
        text.spec_bytes().len() < usize::MAX,
    ensures
        match spec_parse_text_kernel(text.spec_bytes()) {
            Ok(c) => r matches Ok(x) && Seq::new(x@.len(), |i: int| x@[i]@) == c.bindings,
            Err(e) => r matches Err(x) && x@ == e,
        },
{
    match parse_text_kernel_from_str(text) {
        Ok(c) => {
            proof {
                assert(Seq::new(c.bindings@.len(), |i: int| c.bindings@[i]@) == c@.bindings);
            }
            Ok(c.bindings)
        },
        Err(e) => Err(e),
    }
}

} // verus!
