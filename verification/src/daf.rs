//! NAIF DAF (Double-precision Array File) container reader.
//!
//! SPK and binary PCK kernels live inside DAF files. This module checks
//! the file record and walks the summary/name record chain, yielding
//! typed [`Summary`] descriptors. Payload interpretation is the caller's
//! business. The file's bytes are handed in by the caller (reading or
//! memory-mapping the file is I/O and happens outside this library).
//!
//! Every double of the file is kept as its 64-bit pattern (`u64`), the
//! little-endian word the file stores.

use vstd::prelude::*;
use vstd::bytes::{spec_u32_from_le_bytes, spec_u64_from_le_bytes, u32_from_le_bytes, u64_from_le_bytes};
use vstd::slice::slice_subrange;

use crate::chars::{char_is_whitespace, chars_of, unicode_whitespace};
use crate::double_word::{double_to_uint, double_to_uint_exec};

verus! {

pub const RECORD_BYTES: usize = 1024;

pub const DOUBLE_BYTES: usize = 8;

/// Errors of the DAF reader.
#[derive(Debug)]
pub enum DafError {
    TooSmall(usize),
    BadIdword([u8; 8]),
    UnsupportedFormat([u8; 8]),
    BadSummary { record: u32, reason: &'static str },
    AddressOutOfBounds { start: u32, end: u32, file_doubles: u64 },
}

/// The `u32` stored little-endian at `off`.
pub open spec fn le_u32_at(s: Seq<u8>, off: int) -> u32 {
    spec_u32_from_le_bytes(s.subrange(off, off + 4))
}

/// The `u64` (a double's bits) stored little-endian at `off`.
pub open spec fn le_u64_at(s: Seq<u8>, off: int) -> u64 {
    spec_u64_from_le_bytes(s.subrange(off, off + 8))
}

/// The `i32` stored little-endian at `off`.
pub open spec fn le_i32_at(s: Seq<u8>, off: int) -> i32 {
    le_u32_at(s, off) as i32
}

/// `DAF/`, the start of every DAF identification word.
pub open spec fn daf_prefix() -> Seq<u8> {
    seq![68u8, 65u8, 70u8, 47u8]
}

/// `LTL-IEEE`, the only binary format marker read.
pub open spec fn ltl_ieee() -> Seq<u8> {
    seq![76u8, 84u8, 76u8, 45u8, 73u8, 69u8, 69u8, 69u8]
}

/// Whether the bytes are an acceptable DAF file (for [`DafFile::from_bytes`]).
pub open spec fn daf_header_ok(s: Seq<u8>) -> bool {
    s.len() >= 1024 && s.subrange(0, 4) == daf_prefix() && s.subrange(88, 96) == ltl_ieee()
}

/// A DAF file held in memory.
pub struct DafFile {
    bytes: Vec<u8>,
    idword: [u8; 8],
    nd: u32,
    ni: u32,
    fward: u32,
    // Backward record pointer from the file record; kept for
    // completeness, the reader walks forward from `fward`.
    bward: u32,
}

impl View for DafFile {
    type V = Seq<u8>;

    closed spec fn view(&self) -> Seq<u8> {
        self.bytes@
    }
}

impl DafFile {
    #[verifier::type_invariant]
    spec fn inv(&self) -> bool {
        &&& daf_header_ok(self.bytes@)
        &&& self.idword@ == self.bytes@.subrange(0, 8)
        &&& self.nd == le_u32_at(self.bytes@, 8)
        &&& self.ni == le_u32_at(self.bytes@, 12)
        &&& self.fward == le_u32_at(self.bytes@, 76)
        &&& self.bward == le_u32_at(self.bytes@, 80)
    }

    pub open spec fn spec_nd(&self) -> u32 {
        le_u32_at(self@, 8)
    }

    pub open spec fn spec_ni(&self) -> u32 {
        le_u32_at(self@, 12)
    }

    pub open spec fn spec_fward(&self) -> u32 {
        le_u32_at(self@, 76)
    }

    /// Parse the file record of a DAF file held in `bytes`.
    pub fn from_bytes(bytes: Vec<u8>) -> (r: Result<DafFile, DafError>)
        ensures
            match r {
                Ok(f) => daf_header_ok(bytes@) && f@ == bytes@,
                Err(DafError::TooSmall(n)) => bytes@.len() < 1024 && n == bytes@.len(),
                Err(DafError::BadIdword(w)) => bytes@.len() >= 1024 && bytes@.subrange(0, 4)
                    != daf_prefix() && w@ == bytes@.subrange(0, 8),
                Err(DafError::UnsupportedFormat(w)) => bytes@.len() >= 1024 && bytes@.subrange(0, 4)
                    == daf_prefix() && bytes@.subrange(88, 96) != ltl_ieee() && w@ == bytes@.subrange(
                    88,
                    96,
                ),
                Err(_) => false,
            },
    {
        if bytes.len() < RECORD_BYTES {
            return Err(DafError::TooSmall(bytes.len()));
        }
        let idword = [bytes[0], bytes[1], bytes[2], bytes[3], bytes[4], bytes[5], bytes[6], bytes[7]];
        assert(idword@ =~= bytes@.subrange(0, 8));
        if !(bytes[0] == 68 && bytes[1] == 65 && bytes[2] == 70 && bytes[3] == 47) {
            assert(bytes@.subrange(0, 4)[0] == bytes@[0]);
            assert(bytes@.subrange(0, 4)[1] == bytes@[1]);
            assert(bytes@.subrange(0, 4)[2] == bytes@[2]);
            assert(bytes@.subrange(0, 4)[3] == bytes@[3]);
            return Err(DafError::BadIdword(idword));
        }
        assert(bytes@.subrange(0, 4) =~= daf_prefix());
        let locfmt = [
            bytes[88],
            bytes[89],
            bytes[90],
            bytes[91],
            bytes[92],
            bytes[93],
            bytes[94],
            bytes[95],
        ];
        assert(locfmt@ =~= bytes@.subrange(88, 96));
        if !(locfmt[0] == 76 && locfmt[1] == 84 && locfmt[2] == 76 && locfmt[3] == 45 && locfmt[4]
            == 73 && locfmt[5] == 69 && locfmt[6] == 69 && locfmt[7] == 69) {
            proof {
                if bytes@.subrange(88, 96) == ltl_ieee() {
                    assert(locfmt@[0] == 76u8);
                    assert(locfmt@[7] == 69u8);
                }
            }
            return Err(DafError::UnsupportedFormat(locfmt));
        }
        assert(bytes@.subrange(88, 96) =~= ltl_ieee());
        let s = bytes.as_slice();
        let nd = u32_from_le_bytes(slice_subrange(s, 8, 12));
        let ni = u32_from_le_bytes(slice_subrange(s, 12, 16));
        let fward = u32_from_le_bytes(slice_subrange(s, 76, 80));
        let bward = u32_from_le_bytes(slice_subrange(s, 80, 84));
        Ok(DafFile { bytes, idword, nd, ni, fward, bward })
    }

    /// Number of doubles per summary.
    pub fn nd(&self) -> (r: u32)
        ensures
            r == self.spec_nd(),
    {
        proof {
            use_type_invariant(self);
        }
        self.nd
    }

    /// Number of integers per summary.
    pub fn ni(&self) -> (r: u32)
        ensures
            r == self.spec_ni(),
    {
        proof {
            use_type_invariant(self);
        }
        self.ni
    }

    /// The eight-byte identification word (`DAF/SPK `, `DAF/PCK `, ...).
    pub fn idword(&self) -> (r: [u8; 8])
        ensures
            r@ == self@.subrange(0, 8),
    {
        proof {
            use_type_invariant(self);
        }
        self.idword
    }

    /// Size of the file in bytes.
    pub fn byte_len(&self) -> (r: usize)
        ensures
            r == self@.len(),
    {
        self.bytes.len()
    }

    /// Number of doubles per summary: `ND + (NI + 1) / 2`.
    pub fn summary_size_doubles(&self) -> (r: usize)
        requires
            summary_doubles(self.spec_nd(), self.spec_ni()) <= usize::MAX,
        ensures
            r == summary_doubles(self.spec_nd(), self.spec_ni()),
    {
        proof {
            use_type_invariant(self);
        }
        let ss: u64 = self.nd as u64 + (self.ni as u64 + 1) / 2;
        ss as usize
    }

    /// Read a contiguous block of doubles (as bits) by DAF address range
    /// (1-indexed, inclusive on both ends).
    pub fn read_doubles(&self, start_addr: u32, end_addr: u32) -> (r: Result<Vec<u64>, DafError>)
        ensures
            match r {
                Ok(v) => address_range_ok(self@, start_addr, end_addr) && v@ == doubles_in(
                    self@,
                    start_addr as int,
                    end_addr as int,
                ),
                Err(e) => !address_range_ok(self@, start_addr, end_addr) && e == out_of_bounds(
                    self@,
                    start_addr,
                    end_addr,
                ),
            },
    {
        let slice = match self.double_slice(start_addr, end_addr) {
            Ok(s) => s,
            Err(e) => return Err(e),
        };
        let n = (end_addr - start_addr + 1) as usize;
        let sl = slice.len();
        let mut out: Vec<u64> = Vec::new();
        let mut i: usize = 0;
        while i < n
            invariant
                n == end_addr - start_addr + 1,
                slice@.len() == 8 * n,
                sl == slice@.len(),
                slice@ == self@.subrange((start_addr - 1) * 8, end_addr * 8),
                address_range_ok(self@, start_addr, end_addr),
                i <= n,
                out@ == doubles_in(self@, start_addr as int, start_addr + i - 1),
            decreases n - i,
        {
            let w = u64_from_le_bytes(slice_subrange(slice, 8 * i, 8 * i + 8));
            proof {
                let base = (start_addr - 1) * 8;
                assert(slice@.subrange(8 * i, 8 * i + 8) =~= self@.subrange(
                    base + 8 * i,
                    base + 8 * i + 8,
                ));
                assert(doubles_in(self@, start_addr as int, start_addr + i) =~= doubles_in(
                    self@,
                    start_addr as int,
                    start_addr + i - 1,
                ).push(w));
            }
            out.push(w);
            i += 1;
        }
        Ok(out)
    }

    /// The bytes of a double range (1-indexed DAF addresses, inclusive).
    pub fn double_slice(&self, start_addr: u32, end_addr: u32) -> (r: Result<&[u8], DafError>)
        ensures
            match r {
                Ok(s) => address_range_ok(self@, start_addr, end_addr) && s@ == self@.subrange(
                    (start_addr - 1) * 8,
                    end_addr * 8,
                ),
                Err(e) => !address_range_ok(self@, start_addr, end_addr) && e == out_of_bounds(
                    self@,
                    start_addr,
                    end_addr,
                ),
            },
    {
        let len = self.bytes.len();
        if start_addr == 0 || end_addr < start_addr {
            return Err(
                DafError::AddressOutOfBounds {
                    start: start_addr,
                    end: end_addr,
                    file_doubles: (len / DOUBLE_BYTES) as u64,
                },
            );
        }
        let byte_start = (start_addr as u64 - 1) * 8;
        let byte_end = end_addr as u64 * 8;
        if byte_end > len as u64 {
            return Err(
                DafError::AddressOutOfBounds {
                    start: start_addr,
                    end: end_addr,
                    file_doubles: (len / DOUBLE_BYTES) as u64,
                },
            );
        }
        Ok(slice_subrange(self.bytes.as_slice(), byte_start as usize, byte_end as usize))
    }

    /// Read `count` doubles (as bits) starting at DAF address `start_addr`.
    pub fn read_n_doubles(&self, start_addr: u32, count: usize) -> (r: Result<Vec<u64>, DafError>)
        requires
            count == 0 || (1 <= start_addr + (count as u32) <= u32::MAX),
        ensures
            count == 0 ==> (r matches Ok(v) && v@.len() == 0),
            count != 0 ==> ({
                let end = (start_addr + (count as u32) - 1) as u32;
                match r {
                    Ok(v) => address_range_ok(self@, start_addr, end) && v@ == doubles_in(
                        self@,
                        start_addr as int,
                        end as int,
                    ),
                    Err(e) => !address_range_ok(self@, start_addr, end) && e == out_of_bounds(
                        self@,
                        start_addr,
                        end,
                    ),
                }
            }),
    {
        if count == 0 {
            return Ok(Vec::new());
        }
        let end_addr = start_addr + count as u32 - 1;
        self.read_doubles(start_addr, end_addr)
    }
}

/// What a kernel file is, by its first bytes.
#[derive(Debug, Clone, Copy, PartialEq, Eq)]
pub enum KernelKind {
    Spk,
    Pck,
    /// Not a DAF SPK or PCK file (a text kernel, or another DAF).
    Other,
}

/// What loading a kernel file does next.
#[derive(Debug, Clone, Copy, PartialEq, Eq)]
pub enum LoadStep {
    /// The file is loaded already: nothing to do.
    AlreadyLoaded,
    /// Open it as an SPK file.
    OpenSpk,
    /// Open it as a binary PCK file.
    OpenPck,
    /// Parse it as a text kernel for its body-name bindings.
    ParseText,
}

/// The loading decision: a file loaded before is not loaded again;
/// otherwise its kind picks the reader.
pub fn load_step(already_loaded: bool, kind: KernelKind) -> (r: LoadStep)
    ensures
        r == (if already_loaded {
            LoadStep::AlreadyLoaded
        } else {
            match kind {
                KernelKind::Spk => LoadStep::OpenSpk,
                KernelKind::Pck => LoadStep::OpenPck,
                KernelKind::Other => LoadStep::ParseText,
            }
        }),
{
    if already_loaded {
        return LoadStep::AlreadyLoaded;
    }
    match kind {
        KernelKind::Spk => LoadStep::OpenSpk,
        KernelKind::Pck => LoadStep::OpenPck,
        KernelKind::Other => LoadStep::ParseText,
    }
}

/// `b` starts with `p`.
pub open spec fn starts_with(b: Seq<u8>, p: Seq<u8>) -> bool {
    b.len() >= p.len() && b.subrange(0, p.len() as int) == p
}

/// `DAF/SPK`.
pub open spec fn spk_prefix() -> Seq<u8> {
    seq![68u8, 65u8, 70u8, 47u8, 83u8, 80u8, 75u8]
}

/// `DAF/PCK`.
pub open spec fn pck_prefix() -> Seq<u8> {
    seq![68u8, 65u8, 70u8, 47u8, 80u8, 67u8, 75u8]
}

/// Classify a kernel file by its first bytes (at most the first eight are
/// read): a DAF identification word `DAF/SPK` or `DAF/PCK` decides;
/// anything shorter than eight bytes, or otherwise, is `Other`.
pub fn kernel_kind(head: &[u8]) -> (r: KernelKind)
    ensures
        r == (if head@.len() < 8 {
            KernelKind::Other
        } else if starts_with(head@, spk_prefix()) {
            KernelKind::Spk
        } else if starts_with(head@, pck_prefix()) {
            KernelKind::Pck
        } else {
            KernelKind::Other
        }),
{
    if head.len() < 8 {
        return KernelKind::Other;
    }
    let daf = head[0] == 68 && head[1] == 65 && head[2] == 70 && head[3] == 47;
    if daf && head[4] == 83 && head[5] == 80 && head[6] == 75 {
        assert(head@.subrange(0, 7) =~= spk_prefix());
        return KernelKind::Spk;
    }
    assert(!starts_with(head@, spk_prefix())) by {
        if starts_with(head@, spk_prefix()) {
            assert(head@.subrange(0, 7)[4] == head@[4]);
            assert(head@.subrange(0, 7)[0] == head@[0]);
            assert(head@.subrange(0, 7)[1] == head@[1]);
            assert(head@.subrange(0, 7)[2] == head@[2]);
            assert(head@.subrange(0, 7)[3] == head@[3]);
            assert(head@.subrange(0, 7)[5] == head@[5]);
            assert(head@.subrange(0, 7)[6] == head@[6]);
        }
    }
    if daf && head[4] == 80 && head[5] == 67 && head[6] == 75 {
        assert(head@.subrange(0, 7) =~= pck_prefix());
        return KernelKind::Pck;
    }
    assert(!starts_with(head@, pck_prefix())) by {
        if starts_with(head@, pck_prefix()) {
            assert(head@.subrange(0, 7)[4] == head@[4]);
            assert(head@.subrange(0, 7)[0] == head@[0]);
            assert(head@.subrange(0, 7)[1] == head@[1]);
            assert(head@.subrange(0, 7)[2] == head@[2]);
            assert(head@.subrange(0, 7)[3] == head@[3]);
            assert(head@.subrange(0, 7)[5] == head@[5]);
            assert(head@.subrange(0, 7)[6] == head@[6]);
        }
    }
    KernelKind::Other
}

/// `ND + (NI + 1) / 2`, the doubles per summary.
pub open spec fn summary_doubles(nd: u32, ni: u32) -> int {
    nd + (ni + 1) / 2
}

/// The address range `[start, end]` (1-indexed doubles) lies in the file.
pub open spec fn address_range_ok(s: Seq<u8>, start: u32, end: u32) -> bool {
    start != 0 && start <= end && end * 8 <= s.len()
}

/// The error for an address range outside the file.
pub open spec fn out_of_bounds(s: Seq<u8>, start: u32, end: u32) -> DafError {
    DafError::AddressOutOfBounds { start, end, file_doubles: (s.len() / 8) as u64 }
}

/// The doubles (as bits) at DAF addresses `start..=end`.
pub open spec fn doubles_in(s: Seq<u8>, start: int, end: int) -> Seq<u64> {
    Seq::new(
        if end >= start {
            (end - start + 1) as nat
        } else {
            0
        },
        |k: int| le_u64_at(s, (start - 1 + k) * 8),
    )
}

/// One summary plus its name, from a summary/name record pair. The
/// doubles are kept as their bits.
#[derive(Debug, Clone)]
pub struct Summary {
    pub doubles: Vec<u64>,
    pub integers: Vec<i32>,
    pub name: String,
}

pub struct SummaryView {
    pub doubles: Seq<u64>,
    pub integers: Seq<i32>,
    pub name: Seq<char>,
}

impl View for Summary {
    type V = SummaryView;

    open spec fn view(&self) -> SummaryView {
        SummaryView { doubles: self.doubles@, integers: self.integers@, name: self.name@ }
    }
}

/// Calls `std::str::from_utf8` and copies the text. Claims that it
/// succeeds exactly on valid UTF-8 and then yields the decoded characters.
#[verifier::external_body]
fn utf8_to_string(b: &[u8]) -> (r: Option<String>)
    ensures
        r is Some <==> vstd::utf8::valid_utf8(b@),
        r matches Some(s) ==> s@ == vstd::utf8::decode_utf8(b@),
{
    match std::str::from_utf8(b) {
        Ok(s) => Some(s.to_string()),
        Err(_) => None,
    }
}

/// `cs` without its trailing NUL characters.
pub open spec fn strip_nuls(cs: Seq<char>) -> Seq<char>
    decreases cs.len(),
{
    if cs.len() > 0 && cs.last() == '\0' {
        strip_nuls(cs.drop_last())
    } else {
        cs
    }
}

/// `cs` without its trailing whitespace.
pub open spec fn strip_spaces(cs: Seq<char>) -> Seq<char>
    decreases cs.len(),
{
    if cs.len() > 0 && unicode_whitespace(cs.last()) {
        strip_spaces(cs.drop_last())
    } else {
        cs
    }
}

/// A summary's name from its name-record slot: the UTF-8 text (empty
/// when invalid) without trailing NULs, then without trailing whitespace.
pub open spec fn slot_name(b: Seq<u8>) -> Seq<char> {
    if vstd::utf8::valid_utf8(b) {
        strip_spaces(strip_nuls(vstd::utf8::decode_utf8(b)))
    } else {
        Seq::empty()
    }
}

/// `k` NUL characters.
pub open spec fn nul_chars(k: nat) -> Seq<char> {
    Seq::new(k, |i: int| '\0')
}

/// `k` space characters.
pub open spec fn space_chars(k: nat) -> Seq<char> {
    Seq::new(k, |i: int| ' ')
}

pub proof fn lemma_strip_nuls_pad(x: Seq<char>, z: nat)
    ensures
        strip_nuls(x + nul_chars(z)) == strip_nuls(x),
    decreases z,
{
    if z > 0 {
        assert((x + nul_chars(z)).drop_last() =~= x + nul_chars((z - 1) as nat));
        lemma_strip_nuls_pad(x, (z - 1) as nat);
    } else {
        assert(x + nul_chars(0) =~= x);
    }
}

pub proof fn lemma_strip_spaces_pad(x: Seq<char>, a: nat)
    ensures
        strip_spaces(x + space_chars(a)) == strip_spaces(x),
    decreases a,
{
    if a > 0 {
        assert((x + space_chars(a)).drop_last() =~= x + space_chars((a - 1) as nat));
        assert(unicode_whitespace(' '));
        lemma_strip_spaces_pad(x, (a - 1) as nat);
    } else {
        assert(x + space_chars(0) =~= x);
    }
}

/// A name-record slot holding a name padded with spaces, then NULs, reads
/// back as the name, when the name does not itself end in a NUL or in
/// whitespace.
pub proof fn lemma_slot_name_padded(name: Seq<char>, a: nat, z: nat)
    requires
        name.len() == 0 || (name.last() != '\0' && !unicode_whitespace(name.last())),
    ensures
        slot_name(vstd::utf8::encode_utf8(name + space_chars(a) + nul_chars(z))) == name,
{
    let t = name + space_chars(a) + nul_chars(z);
    vstd::utf8::encode_utf8_valid_utf8(t);
    vstd::utf8::encode_utf8_decode_utf8(t);
    lemma_strip_nuls_pad(name + space_chars(a), z);
    if a > 0 {
        assert((name + space_chars(a)).last() == ' ');
    } else {
        assert(name + space_chars(a) =~= name);
    }
    lemma_strip_spaces_pad(name, a);
}

/// Start byte of record `rec` (1-indexed).
pub open spec fn record_start(rec: int) -> int {
    (rec - 1) * 1024
}

pub open spec fn record_in_file(s: Seq<u8>, rec: int) -> bool {
    rec >= 1 && rec * 1024 <= s.len()
}

/// Summary `i` of the summary record `rec` with its name from record `rec + 1`.
pub open spec fn summary_at(s: Seq<u8>, rec: int, i: int, nd: u32, ni: u32) -> SummaryView {
    let ss8 = summary_doubles(nd, ni) * 8;
    let base = record_start(rec) + 24 + i * ss8;
    let nbase = record_start(rec + 1) + i * ss8;
    SummaryView {
        doubles: Seq::new(nd as nat, |k: int| le_u64_at(s, base + 8 * k)),
        integers: Seq::new(ni as nat, |k: int| le_i32_at(s, base + nd * 8 + 4 * k)),
        name: slot_name(s.subrange(nbase, nbase + ss8)),
    }
}

/// The summary count `NSUM` of record `rec`, stored as a double and read
/// with `as usize`.
pub open spec fn nsum_of(s: Seq<u8>, rec: int) -> int {
    double_to_uint(le_u64_at(s, record_start(rec) + 16), usize::MAX as int)
}

/// The forward pointer `NEXT` of record `rec`, a double read with `as u32`.
pub open spec fn next_of(s: Seq<u8>, rec: int) -> u32 {
    double_to_uint(le_u64_at(s, record_start(rec)), u32::MAX as int) as u32
}

pub open spec fn past_end() -> &'static str {
    "record extends past end of file"
}

pub open spec fn summary_past_record() -> &'static str {
    "summary past end of record"
}

/// The summaries of summary record `rec`.
pub open spec fn record_summaries(s: Seq<u8>, rec: u32, nd: u32, ni: u32) -> Result<
    Seq<SummaryView>,
    DafError,
> {
    let ss8 = summary_doubles(nd, ni) * 8;
    let n = nsum_of(s, rec as int);
    if !record_in_file(s, rec as int) {
        Err(DafError::BadSummary { record: rec, reason: past_end() })
    } else if !record_in_file(s, rec + 1) {
        Err(DafError::BadSummary { record: (rec + 1) as u32, reason: past_end() })
    } else if n > 0 && 24 + n * ss8 > 1024 {
        Err(DafError::BadSummary { record: rec, reason: summary_past_record() })
    } else {
        Ok(Seq::new(n as nat, |i: int| summary_at(s, rec as int, i, nd, ni)))
    }
}

/// The summaries along the record chain from `rec`, when the chain ends
/// (at a zero pointer or an error) within `fuel` records.
pub open spec fn chain_summaries(s: Seq<u8>, rec: u32, nd: u32, ni: u32, fuel: nat) -> Option<
    Result<Seq<SummaryView>, DafError>,
>
    decreases fuel,
{
    if rec == 0 {
        Some(Ok(Seq::empty()))
    } else if fuel == 0 {
        None
    } else {
        match record_summaries(s, rec, nd, ni) {
            Err(e) => Some(Err(e)),
            Ok(first) => match chain_summaries(s, next_of(s, rec as int), nd, ni, (fuel - 1) as nat) {
                None => None,
                Some(Err(e)) => Some(Err(e)),
                Some(Ok(rest)) => Some(Ok(first + rest)),
            },
        }
    }
}

/// How many summary records a walk of the chain visits at most: one more
/// than the file has records. A chain that has not ended by then has
/// visited some record twice, and would cycle forever.
pub open spec fn chain_limit(s: Seq<u8>) -> nat {
    (s.len() / 1024 + 1) as nat
}

pub open spec fn chain_cycles() -> &'static str {
    "summary record chain does not end"
}

pub proof fn lemma_chain_fuel(s: Seq<u8>, rec: u32, nd: u32, ni: u32, f1: nat, f2: nat)
    requires
        f1 <= f2,
        chain_summaries(s, rec, nd, ni, f1) is Some,
    ensures
        chain_summaries(s, rec, nd, ni, f2) == chain_summaries(s, rec, nd, ni, f1),
    decreases f1,
{
    if rec != 0 && f1 > 0 {
        if let Ok(first) = record_summaries(s, rec, nd, ni) {
            lemma_chain_fuel(s, next_of(s, rec as int), nd, ni, (f1 - 1) as nat, (f2 - 1) as nat);
        }
    }
}

/// What walking the summary chain of a DAF file gives: the summaries in
/// chain order, the first error met, or, for a chain that cycles, an
/// error naming the first summary record.
pub open spec fn daf_summaries(s: Seq<u8>) -> Result<Seq<SummaryView>, DafError> {
    let nd = le_u32_at(s, 8);
    let ni = le_u32_at(s, 12);
    let fward = le_u32_at(s, 76);
    match chain_summaries(s, fward, nd, ni, chain_limit(s)) {
        Some(r) => r,
        None => Err(DafError::BadSummary { record: fward, reason: chain_cycles() }),
    }
}

/// A DAF file whose first summary record ends the chain (`NEXT = 0`) and
/// holds its `NSUM` summaries within the record reads back exactly those
/// summaries, in slot order: summary `i` has the ND doubles and NI
/// integers of slot `i` and the name in slot `i` of the following record
/// (see [`lemma_slot_name_padded`] for the name).
pub proof fn lemma_single_record_reads_back(s: Seq<u8>)
    requires
        le_u32_at(s, 76) >= 1,
        record_in_file(s, le_u32_at(s, 76) as int),
        record_in_file(s, le_u32_at(s, 76) + 1),
        next_of(s, le_u32_at(s, 76) as int) == 0,
        24 + nsum_of(s, le_u32_at(s, 76) as int) * (summary_doubles(le_u32_at(s, 8), le_u32_at(s, 12)) * 8)
            <= 1024,
    ensures
        daf_summaries(s) == Ok::<Seq<SummaryView>, DafError>(
            Seq::new(
                nsum_of(s, le_u32_at(s, 76) as int) as nat,
                |i: int| summary_at(s, le_u32_at(s, 76) as int, i, le_u32_at(s, 8), le_u32_at(s, 12)),
            ),
        ),
{
    let f = le_u32_at(s, 76);
    let nd = le_u32_at(s, 8);
    let ni = le_u32_at(s, 12);
    let first = Seq::new(nsum_of(s, f as int) as nat, |i: int| summary_at(s, f as int, i, nd, ni));
    assert(record_summaries(s, f, nd, ni) == Ok::<Seq<SummaryView>, DafError>(first));
    assert(chain_limit(s) >= 2);
    assert(chain_summaries(s, 0, nd, ni, (chain_limit(s) - 1) as nat) == Some(
        Ok::<Seq<SummaryView>, DafError>(Seq::empty()),
    ));
    assert(first + Seq::<SummaryView>::empty() =~= first);
}

pub open spec fn summaries_view(v: Seq<Summary>) -> Seq<SummaryView> {
    Seq::new(v.len(), |i: int| v[i]@)
}

impl DafFile {
    /// The bytes of record `rec` (1-indexed).
    fn record_bytes(&self, rec: u32) -> (r: Result<&[u8], DafError>)
        requires
            rec >= 1,
        ensures
            match r {
                Ok(b) => record_in_file(self@, rec as int) && b@ == self@.subrange(
                    record_start(rec as int),
                    rec * 1024,
                ),
                Err(e) => !record_in_file(self@, rec as int) && e == DafError::BadSummary {
                    record: rec,
                    reason: past_end(),
                },
            },
    {
        let start = (rec as u64 - 1) * 1024;
        let end = start + 1024;
        if end > self.bytes.len() as u64 {
            return Err(DafError::BadSummary { record: rec, reason: "record extends past end of file" });
        }
        Ok(slice_subrange(self.bytes.as_slice(), start as usize, end as usize))
    }

    /// The name in a name-record slot.
    fn slot_name_exec(b: &[u8]) -> (r: String)
        ensures
            r@ == slot_name(b@),
    {
        let text = match utf8_to_string(b) {
            Some(t) => t,
            None => return String::new(),
        };
        let cs = chars_of(text.as_str());
        let mut e = cs.len();
        assert(cs@.subrange(0, cs@.len() as int) == cs@);
        while e > 0 && cs[e - 1] == '\0'
            invariant
                e <= cs@.len(),
                strip_nuls(cs@.subrange(0, e as int)) == strip_nuls(cs@),
            decreases e,
        {
            assert(cs@.subrange(0, e as int).drop_last() == cs@.subrange(0, e - 1));
            e -= 1;
        }
        assert(cs@.subrange(0, cs@.len() as int) == cs@);
        let ghost nul_free = cs@.subrange(0, e as int);
        assert(strip_nuls(nul_free) == nul_free);
        while e > 0 && char_is_whitespace(cs[e - 1])
            invariant
                e <= cs@.len(),
                strip_spaces(cs@.subrange(0, e as int)) == strip_spaces(strip_nuls(cs@)),
            decreases e,
        {
            assert(cs@.subrange(0, e as int).drop_last() == cs@.subrange(0, e - 1));
            e -= 1;
        }
        let mut out = String::new();
        let mut k: usize = 0;
        while k < e
            invariant
                k <= e <= cs@.len(),
                out@ == cs@.subrange(0, k as int),
            decreases e - k,
        {
            out.push(cs[k]);
            k += 1;
            assert(cs@.subrange(0, k as int) == cs@.subrange(0, k - 1).push(cs@[k - 1]));
        }
        assert(strip_spaces(cs@.subrange(0, e as int)) == cs@.subrange(0, e as int));
        out
    }
}

impl DafFile {
    /// The summary whose slot starts `soff` bytes into summary record
    /// `rec` (held in `sbytes`), named from the same slot of `nbytes`.
    fn read_one_summary(
        &self,
        rec: u32,
        sbytes: &[u8],
        nbytes: &[u8],
        soff: u64,
        ss8: u64,
        Ghost(i): Ghost<int>,
    ) -> (r: Summary)
        requires
            record_in_file(self@, rec as int),
            record_in_file(self@, rec + 1),
            sbytes@ == self@.subrange(record_start(rec as int), rec * 1024),
            nbytes@ == self@.subrange(record_start(rec + 1), (rec + 1) * 1024),
            ss8 == summary_doubles(self.spec_nd(), self.spec_ni()) * 8,
            i >= 0,
            soff == 24 + i * ss8,
            soff + ss8 <= 1024,
        ensures
            r@ == summary_at(self@, rec as int, i, self.spec_nd(), self.spec_ni()),
    {
        proof {
            use_type_invariant(self);
        }
        let nd = self.nd;
        let ni = self.ni;
        let ghost base = record_start(rec as int) + soff;
        assert(i * ss8 >= 0) by (nonlinear_arith)
            requires
                i >= 0,
                ss8 >= 0,
        ;
        assert(base == record_start(rec as int) + 24 + i * ss8);
        assert(base + ss8 <= self@.len());
        assert(ss8 <= 1000);
        assert(nd as int * 8 + ni as int * 4 <= ss8);
        let sslice = slice_subrange(sbytes, soff as usize, (soff + ss8) as usize);
        assert(sslice@ =~= self@.subrange(base, base + ss8));
        let mut doubles: Vec<u64> = Vec::new();
        let mut k: u32 = 0;
        while k < nd
            invariant
                nd == self.spec_nd(),
                ni == self.spec_ni(),
                ss8 == summary_doubles(nd, ni) * 8,
                ss8 <= 1000,
                nd * 8 + ni * 4 <= ss8,
                sslice@.len() == ss8,
                0 <= base,
                base + ss8 <= self@.len(),
                sslice@ == self@.subrange(base, base + ss8),
                k <= nd,
                doubles@ == Seq::new(k as nat, |j: int| le_u64_at(self@, base + 8 * j)),
            decreases nd - k,
        {
            let off = (k as usize) * 8;
            let w = u64_from_le_bytes(slice_subrange(sslice, off, off + 8));
            assert(sslice@.subrange(off as int, off + 8) =~= self@.subrange(
                base + 8 * k,
                base + 8 * k + 8,
            ));
            doubles.push(w);
            k += 1;
            assert(doubles@ =~= Seq::new(k as nat, |j: int| le_u64_at(self@, base + 8 * j)));
        }
        let mut integers: Vec<i32> = Vec::new();
        let mut k: u32 = 0;
        let int_start = (nd as usize) * 8;
        while k < ni
            invariant
                nd == self.spec_nd(),
                ni == self.spec_ni(),
                ss8 == summary_doubles(nd, ni) * 8,
                int_start == nd * 8,
                ss8 <= 1000,
                nd * 8 + ni * 4 <= ss8,
                sslice@.len() == ss8,
                0 <= base,
                base + ss8 <= self@.len(),
                sslice@ == self@.subrange(base, base + ss8),
                k <= ni,
                integers@ == Seq::new(k as nat, |j: int| le_i32_at(self@, base + nd * 8 + 4 * j)),
            decreases ni - k,
        {
            let off = int_start + (k as usize) * 4;
            let w = u32_from_le_bytes(slice_subrange(sslice, off, off + 4));
            assert(sslice@.subrange(off as int, off + 4) =~= self@.subrange(
                base + nd * 8 + 4 * k,
                base + nd * 8 + 4 * k + 4,
            ));
            integers.push(w as i32);
            k += 1;
            assert(integers@ =~= Seq::new(
                k as nat,
                |j: int| le_i32_at(self@, base + nd * 8 + 4 * j),
            ));
        }
        let noff = (soff - 24) as usize;
        let nslice = slice_subrange(nbytes, noff, noff + ss8 as usize);
        let ghost nbase = record_start(rec + 1) + i * ss8;
        assert(nslice@ =~= self@.subrange(nbase, nbase + ss8));
        let name = Self::slot_name_exec(nslice);
        Summary { doubles, integers, name }
    }

    /// The summaries of summary record `rec`.
    fn read_summary_record(&self, rec: u32) -> (r: Result<Vec<Summary>, DafError>)
        requires
            rec >= 1,
            self@.len() < 0xFFFF_FFFF * 1024,
        ensures
            match record_summaries(self@, rec, self.spec_nd(), self.spec_ni()) {
                Ok(v) => r matches Ok(x) && summaries_view(x@) == v,
                Err(e) => r matches Err(x) && x == e,
            },
    {
        proof {
            use_type_invariant(self);
        }
        let sbytes = match self.record_bytes(rec) {
            Ok(b) => b,
            Err(e) => return Err(e),
        };
        let name_rec = rec + 1;
        let nbytes = match self.record_bytes(name_rec) {
            Ok(b) => b,
            Err(e) => return Err(e),
        };
        let nsum_bits = u64_from_le_bytes(slice_subrange(sbytes, 16, 24));
        assert(sbytes@.subrange(16, 24) =~= self@.subrange(
            record_start(rec as int) + 16,
            record_start(rec as int) + 24,
        ));
        let nsum = double_to_uint_exec(nsum_bits, usize::MAX as u64) as usize;
        let ghost n = nsum_of(self@, rec as int);
        assert(nsum == n);
        let ss8: u64 = (self.nd as u64 + (self.ni as u64 + 1) / 2) * 8;
        let mut out: Vec<Summary> = Vec::new();
        let mut soff: u64 = 24;
        let mut i: usize = 0;
        while i < nsum
            invariant
                record_in_file(self@, rec as int),
                record_in_file(self@, rec + 1),
                sbytes@ == self@.subrange(record_start(rec as int), rec * 1024),
                nbytes@ == self@.subrange(record_start(rec + 1), (rec + 1) * 1024),
                ss8 == summary_doubles(self.spec_nd(), self.spec_ni()) * 8,
                nsum == n,
                n == nsum_of(self@, rec as int),
                i <= nsum,
                soff == 24 + i * ss8,
                soff <= 1024,
                summaries_view(out@) == Seq::new(
                    i as nat,
                    |j: int| summary_at(self@, rec as int, j, self.spec_nd(), self.spec_ni()),
                ),
            decreases nsum - i,
        {
            if soff + ss8 > 1024 {
                proof {
                    assert(24 + (i + 1) * ss8 > 1024) by (nonlinear_arith)
                        requires
                            soff == 24 + i * ss8,
                            soff + ss8 > 1024,
                    ;
                    assert(24 + n * ss8 > 1024) by (nonlinear_arith)
                        requires
                            24 + (i + 1) * ss8 > 1024,
                            n >= i + 1,
                            ss8 >= 0,
                    ;
                    assert(n > 0);
                    assert(record_summaries(self@, rec, self.spec_nd(), self.spec_ni()) == Err::<Seq<SummaryView>, DafError>(DafError::BadSummary { record: rec, reason: summary_past_record() }));
                }
                return Err(DafError::BadSummary { record: rec, reason: "summary past end of record" });
            }
            let one = self.read_one_summary(rec, sbytes, nbytes, soff, ss8, Ghost(i as int));
            let ghost one_v = one@;
            let ghost old_out = out@;
            out.push(one);
            assert(out@ == old_out.push(one));
            assert(summaries_view(out@) =~= summaries_view(old_out).push(one_v));
            assert(summaries_view(out@) =~= Seq::new(
                (i + 1) as nat,
                |j: int| summary_at(self@, rec as int, j, self.spec_nd(), self.spec_ni()),
            ));
            proof {
                assert(soff + ss8 == 24 + (i + 1) * ss8) by (nonlinear_arith)
                    requires
                        soff == 24 + i * ss8,
                ;
            }
            soff = soff + ss8;
            i += 1;
        }
        proof {
            if n > 0 {
                assert(24 + n * ss8 <= 1024);
            }
        }
        Ok(out)
    }

    /// Enumerate every summary across the summary-record chain, from the
    /// first summary record on. A chain that visits more records than the
    /// file holds cycles, and is refused with an error.
    pub fn summaries(&self) -> (r: Result<Vec<Summary>, DafError>)
        requires
            self@.len() < 0xFFFF_FFFF * 1024,
        ensures
            match daf_summaries(self@) {
                Ok(v) => r matches Ok(x) && summaries_view(x@) == v,
                Err(e) => r matches Err(x) && x == e,
            },
    {
        proof {
            use_type_invariant(self);
        }
        let nd = self.nd;
        let ni = self.ni;
        let fward = self.fward;
        let ghost total = daf_summaries(self@);
        let mut rec = fward;
        let mut left: usize = self.bytes.len() / 1024 + 1;
        let mut out: Vec<Summary> = Vec::new();
        while rec != 0
            invariant
                nd == self.spec_nd(),
                ni == self.spec_ni(),
                fward == self.spec_fward(),
                self@.len() < 0xFFFF_FFFF * 1024,
                total == daf_summaries(self@),
                match chain_summaries(self@, rec, nd, ni, left as nat) {
                    Some(Ok(rest)) => total == Ok::<Seq<SummaryView>, DafError>(summaries_view(out@) + rest),
                    Some(Err(e)) => total == Err::<Seq<SummaryView>, DafError>(e),
                    None => total == Err::<Seq<SummaryView>, DafError>(
                        DafError::BadSummary { record: fward, reason: chain_cycles() },
                    ),
                },
            decreases left,
        {
            if left == 0 {
                return Err(DafError::BadSummary { record: fward, reason: "summary record chain does not end" });
            }
            let part = match self.read_summary_record(rec) {
                Ok(p) => p,
                Err(e) => return Err(e),
            };
            let sbytes = match self.record_bytes(rec) {
                Ok(b) => b,
                Err(e) => return Err(e),
            };
            let next_bits = u64_from_le_bytes(slice_subrange(sbytes, 0, 8));
            assert(sbytes@.subrange(0, 8) =~= self@.subrange(
                record_start(rec as int),
                record_start(rec as int) + 8,
            ));
            let next = double_to_uint_exec(next_bits, u32::MAX as u64) as u32;
            assert(next == next_of(self@, rec as int));
            let ghost old_out = out@;
            let ghost part_v = part@;
            let mut part = part;
            out.append(&mut part);
            proof {
                assert(summaries_view(out@) =~= summaries_view(old_out) + summaries_view(part_v));
                let first = record_summaries(self@, rec, nd, ni)->Ok_0;
                match chain_summaries(self@, next, nd, ni, (left - 1) as nat) {
                    Some(Ok(rest)) => {
                        assert(summaries_view(old_out) + (first + rest) == (summaries_view(old_out)
                            + first) + rest);
                    },
                    _ => {},
                }
            }
            rec = next;
            left = left - 1;
        }
        assert(summaries_view(out@) + Seq::<SummaryView>::empty() == summaries_view(out@));
        Ok(out)
    }
}

} // verus!
