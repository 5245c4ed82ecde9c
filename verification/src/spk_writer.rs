//! DAF/SPK writer.
//!
//! Builds a complete DAF/SPK file in memory. Supports SPK Type 3
//! (Chebyshev position + velocity) and Type 9 (Lagrange, unequal time
//! steps). Writing the bytes to disk (atomically) is left to the caller.
//!
//! Layout produced (record numbers 1-indexed, 1024 bytes each):
//!   rec 1   : file record (idword, nd=2, ni=6, fward=2, bward=2, LTL-IEEE)
//!   rec 2   : summary record chain head (single record; NSUM <= 25)
//!   rec 3   : matching name record (one 40-byte name slot per summary)
//!   rec 4+  : data records (padded to a full 128-double record)
//!
//! Doubles are held as their IEEE-754 bit patterns (`u64`).

use vstd::prelude::*;
use vstd::bytes::{spec_u32_to_le_bytes, spec_u64_to_le_bytes, u32_to_le_bytes, u64_to_le_bytes};
use vstd::utf8::encode_utf8;
use vstd::string::StringSliceAdditionalSpecFns;

use crate::count_double::{count_bits, count_to_double_bits};
use crate::daf::ltl_ieee;
use crate::double_word::{double_le, double_le_exec, double_lt, double_lt_exec};

verus! {

pub const SPK_ND: u32 = 2;

pub const SPK_NI: u32 = 6;

/// Summary size in doubles = ND + (NI+1)/2 = 5.
pub const SPK_SUMMARY_DOUBLES: usize = 5;

/// Summary slot size in bytes = 40.
pub const SPK_SUMMARY_BYTES: usize = 40;

/// Per-record summary capacity = (1024 - 24) / 40 = 25.
pub const SPK_SUMMARIES_PER_RECORD: usize = 25;

/// Doubles per DAF record = 1024 / 8 = 128.
pub const DOUBLES_PER_RECORD: usize = 128;

/// Errors of the SPK writer.
#[derive(Debug)]
pub enum SpkWriterError {
    SegmentIdTooLong(String),
    TooManySegments { got: usize, max: usize },
    BadType3(&'static str),
    BadType9(&'static str),
}

/// One Chebyshev record within a Type 3 segment.
#[derive(Debug, Clone)]
pub struct Type3Record {
    pub mid: u64,
    pub radius: u64,
    /// Position X coefficients (length = degree + 1).
    pub x: Vec<u64>,
    pub y: Vec<u64>,
    pub z: Vec<u64>,
    /// Velocity X coefficients (length = degree + 1).
    pub vx: Vec<u64>,
    pub vy: Vec<u64>,
    pub vz: Vec<u64>,
}

pub struct Type3RecordView {
    pub mid: u64,
    pub radius: u64,
    pub x: Seq<u64>,
    pub y: Seq<u64>,
    pub z: Seq<u64>,
    pub vx: Seq<u64>,
    pub vy: Seq<u64>,
    pub vz: Seq<u64>,
}

impl View for Type3Record {
    type V = Type3RecordView;

    open spec fn view(&self) -> Type3RecordView {
        Type3RecordView {
            mid: self.mid,
            radius: self.radius,
            x: self.x@,
            y: self.y@,
            z: self.z@,
            vx: self.vx@,
            vy: self.vy@,
            vz: self.vz@,
        }
    }
}

#[derive(Debug, Clone)]
pub struct Type3Segment {
    pub target: i32,
    pub center: i32,
    pub frame_id: i32,
    pub start_et: u64,
    pub end_et: u64,
    pub segment_id: String,
    /// INTLEN (seconds per record).
    pub intlen: u64,
    /// INIT (start ET of the first record's coverage).
    pub init: u64,
    pub records: Vec<Type3Record>,
}

pub struct Type3SegmentView {
    pub target: i32,
    pub center: i32,
    pub frame_id: i32,
    pub start_et: u64,
    pub end_et: u64,
    pub segment_id: Seq<char>,
    pub intlen: u64,
    pub init: u64,
    pub records: Seq<Type3RecordView>,
}

impl View for Type3Segment {
    type V = Type3SegmentView;

    open spec fn view(&self) -> Type3SegmentView {
        Type3SegmentView {
            target: self.target,
            center: self.center,
            frame_id: self.frame_id,
            start_et: self.start_et,
            end_et: self.end_et,
            segment_id: self.segment_id@,
            intlen: self.intlen,
            init: self.init,
            records: Seq::new(self.records@.len(), |i: int| self.records@[i]@),
        }
    }
}

#[derive(Debug, Clone)]
pub struct Type9Segment {
    pub target: i32,
    pub center: i32,
    pub frame_id: i32,
    pub start_et: u64,
    pub end_et: u64,
    pub segment_id: String,
    /// Polynomial degree (window = degree + 1).
    pub degree: i32,
    /// States: length 6 * N (x, y, z, vx, vy, vz interleaved).
    pub states: Vec<u64>,
    /// Epochs: length N, strictly increasing.
    pub epochs: Vec<u64>,
}

pub struct Type9SegmentView {
    pub target: i32,
    pub center: i32,
    pub frame_id: i32,
    pub start_et: u64,
    pub end_et: u64,
    pub segment_id: Seq<char>,
    pub degree: i32,
    pub states: Seq<u64>,
    pub epochs: Seq<u64>,
}

impl View for Type9Segment {
    type V = Type9SegmentView;

    open spec fn view(&self) -> Type9SegmentView {
        Type9SegmentView {
            target: self.target,
            center: self.center,
            frame_id: self.frame_id,
            start_et: self.start_et,
            end_et: self.end_et,
            segment_id: self.segment_id@,
            degree: self.degree,
            states: self.states@,
            epochs: self.epochs@,
        }
    }
}

enum Segment {
    Type3(Type3Segment),
    Type9(Type9Segment),
}

/// A segment as the writer holds it.
pub enum SegmentView {
    Type3(Type3SegmentView),
    Type9(Type9SegmentView),
}

impl View for Segment {
    type V = SegmentView;

    closed spec fn view(&self) -> SegmentView {
        match self {
            Segment::Type3(s) => SegmentView::Type3(s@),
            Segment::Type9(s) => SegmentView::Type9(s@),
        }
    }
}

/// An SPK file under construction.
pub struct SpkWriter {
    idword: [u8; 8],
    locifn: [u8; 60],
    segments: Vec<Segment>,
}

pub struct SpkWriterView {
    pub idword: Seq<u8>,
    pub locifn: Seq<u8>,
    pub segments: Seq<SegmentView>,
}

impl View for SpkWriter {
    type V = SpkWriterView;

    closed spec fn view(&self) -> SpkWriterView {
        SpkWriterView {
            idword: self.idword@,
            locifn: self.locifn@,
            segments: Seq::new(self.segments@.len(), |i: int| self.segments@[i]@),
        }
    }
}

/// The UTF-8 length of a segment id.
pub open spec fn id_len(id: Seq<char>) -> int {
    encode_utf8(id).len() as int
}

/// A segment id fits its 40-byte name slot.
pub open spec fn id_fits(id: Seq<char>) -> bool {
    id_len(id) <= 40
}

/// Every record of a Type 3 segment has `n` coefficients per channel.
pub open spec fn records_have_width(recs: Seq<Type3RecordView>, n: int) -> bool {
    forall|i: int|
        0 <= i < recs.len() ==> {
            &&& #[trigger] recs[i].x.len() == n
            &&& recs[i].y.len() == n
            &&& recs[i].z.len() == n
            &&& recs[i].vx.len() == n
            &&& recs[i].vy.len() == n
            &&& recs[i].vz.len() == n
        }
}

/// What `add_type3` rejects a Type 3 segment for (id length aside), in
/// the order it checks; `None` when it is accepted.
pub open spec fn type3_problem(s: Type3SegmentView) -> Option<&'static str> {
    if s.records.len() == 0 {
        Some("empty records")
    } else if s.records[0].x.len() == 0 {
        Some("degree < 0")
    } else if !records_have_width(s.records, s.records[0].x.len() as int) {
        Some("inconsistent coefficient count")
    } else if double_le(s.intlen, 0) {
        Some("INTLEN must be > 0")
    } else {
        None
    }
}

/// The epochs are strictly increasing (each `<` the next, as `f64`).
pub open spec fn strictly_increasing(e: Seq<u64>) -> bool {
    forall|i: int| 0 <= i < e.len() - 1 ==> #[trigger] double_lt(e[i], e[i + 1])
}

/// What `add_type9` rejects a Type 9 segment for (id length aside), in
/// the order it checks; `None` when it is accepted.
pub open spec fn type9_problem(s: Type9SegmentView) -> Option<&'static str> {
    let n = s.epochs.len();
    if n == 0 {
        Some("no epochs")
    } else if s.states.len() != 6 * n {
        Some("states length != 6 * epochs length")
    } else if s.degree < 1 {
        Some("degree < 1")
    } else if s.degree + 1 > n {
        Some("window (degree+1) exceeds sample count")
    } else if !strictly_increasing(s.epochs) {
        Some("epochs must be strictly increasing")
    } else {
        None
    }
}

/// A segment that the writer accepted.
pub open spec fn segment_valid(s: SegmentView) -> bool {
    match s {
        SegmentView::Type3(t) => id_fits(t.segment_id) && type3_problem(t) is None,
        SegmentView::Type9(t) => id_fits(t.segment_id) && type9_problem(t) is None,
    }
}

/// `DAF/SPK `, the SPK identification word.
pub open spec fn spk_idword() -> Seq<u8> {
    seq![68u8, 65u8, 70u8, 47u8, 83u8, 80u8, 75u8, 32u8]
}

/// The internal file name field: the first (at most 60) bytes of the
/// name, padded with spaces.
pub open spec fn locifn_field(name: Seq<u8>) -> Seq<u8> {
    Seq::new(60, |i: int| if i < name.len() { name[i] } else { 32u8 })
}

/// What every writer satisfies: the SPK idword and only accepted segments.
pub open spec fn writer_valid(w: SpkWriterView) -> bool {
    &&& w.idword == spk_idword()
    &&& w.locifn.len() == 60
    &&& forall|i: int| 0 <= i < w.segments.len() ==> segment_valid(#[trigger] w.segments[i])
}


/// The doubles of one Type 3 record, in file order.
pub open spec fn record_doubles(r: Type3RecordView) -> Seq<u64> {
    seq![r.mid, r.radius] + r.x + r.y + r.z + r.vx + r.vy + r.vz
}

/// The doubles of a sequence of Type 3 records, one after the other.
pub open spec fn records_doubles(rs: Seq<Type3RecordView>) -> Seq<u64>
    decreases rs.len(),
{
    if rs.len() == 0 {
        Seq::empty()
    } else {
        records_doubles(rs.drop_last()) + record_doubles(rs.last())
    }
}

/// RSIZE of a Type 3 segment: 2 + 6 * (coefficients per channel).
pub open spec fn type3_rsize(s: Type3SegmentView) -> nat {
    (2 + 6 * s.records[0].x.len()) as nat
}

/// The data of a Type 3 segment: the records, then the trailer
/// `[INIT, INTLEN, RSIZE, N]`.
pub open spec fn type3_payload(s: Type3SegmentView) -> Seq<u64> {
    records_doubles(s.records) + seq![
        s.init,
        s.intlen,
        count_bits(type3_rsize(s)),
        count_bits(s.records.len()),
    ]
}

/// Number of Type 9 directory entries: one per full group of 100 epochs
/// after the first, `(N - 1) / 100`.
pub open spec fn type9_dir_len(n: nat) -> nat {
    ((n - 1) / 100) as nat
}

/// The data of a Type 9 segment: states, epochs, the epoch directory
/// (every 100th epoch), then the trailer `[DEGREE, N]`.
pub open spec fn type9_payload(s: Type9SegmentView) -> Seq<u64> {
    let n = s.epochs.len();
    s.states + s.epochs + Seq::new(type9_dir_len(n), |k: int| s.epochs[(k + 1) * 100 - 1]) + seq![
        count_bits(s.degree as nat),
        count_bits(n),
    ]
}

/// The data a segment contributes to the file.
pub open spec fn segment_payload(s: SegmentView) -> Seq<u64> {
    match s {
        SegmentView::Type3(t) => type3_payload(t),
        SegmentView::Type9(t) => type9_payload(t),
    }
}

/// Number of doubles of a segment's data, by its shape.
pub open spec fn segment_payload_len(s: SegmentView) -> nat {
    match s {
        SegmentView::Type3(t) => t.records.len() * type3_rsize(t) + 4,
        SegmentView::Type9(t) => 7 * t.epochs.len() + type9_dir_len(t.epochs.len()) + 2,
    }
}

pub proof fn lemma_records_doubles_len(rs: Seq<Type3RecordView>, n: int)
    requires
        n >= 0,
        records_have_width(rs, n),
    ensures
        records_doubles(rs).len() == rs.len() * (2 + 6 * n),
    decreases rs.len(),
{
    if rs.len() > 0 {
        assert(records_have_width(rs.drop_last(), n)) by {
            assert forall|i: int| 0 <= i < rs.drop_last().len() implies #[trigger] rs.drop_last()[i].x.len() == n
                && rs.drop_last()[i].y.len() == n && rs.drop_last()[i].z.len() == n
                && rs.drop_last()[i].vx.len() == n && rs.drop_last()[i].vy.len() == n
                && rs.drop_last()[i].vz.len() == n by {
                assert(rs.drop_last()[i] == rs[i]);
                assert(rs[i].x.len() == n);
            }
        }
        lemma_records_doubles_len(rs.drop_last(), n);
        assert(rs[rs.len() - 1].x.len() == n);
        vstd::arithmetic::mul::lemma_mul_is_distributive_add_other_way(
            2 + 6 * n,
            rs.len() - 1,
            1,
        );
    }
}

/// The shape formula gives the length of a valid segment's data.
pub proof fn lemma_payload_len(s: SegmentView)
    requires
        segment_valid(s),
    ensures
        segment_payload(s).len() == segment_payload_len(s),
{
    match s {
        SegmentView::Type3(t) => {
            lemma_records_doubles_len(t.records, t.records[0].x.len() as int);
        },
        SegmentView::Type9(t) => {},
    }
}


/// The little-endian bytes of a `u32`.
pub open spec fn le32(v: u32) -> Seq<u8> {
    spec_u32_to_le_bytes(v)
}

/// The little-endian bytes of a `u64` (a double's bits).
pub open spec fn le64(v: u64) -> Seq<u8> {
    spec_u64_to_le_bytes(v)
}

/// `n` copies of the byte `b`.
pub open spec fn fill(n: nat, b: u8) -> Seq<u8> {
    Seq::new(n, |i: int| b)
}

/// The little-endian bytes of a run of doubles.
pub open spec fn doubles_bytes(d: Seq<u64>) -> Seq<u8>
    decreases d.len(),
{
    if d.len() == 0 {
        Seq::empty()
    } else {
        doubles_bytes(d.drop_last()) + le64(d.last())
    }
}

/// The FTP corruption-check string stored at byte 500 of the file record.
pub open spec fn ftpstr() -> Seq<u8> {
    seq![
        70u8, 84u8, 80u8, 83u8, 84u8, 82u8, 58u8, 13u8, 58u8, 10u8, 58u8, 13u8, 10u8, 58u8,
        13u8, 0u8, 58u8, 129u8, 58u8, 16u8, 206u8, 58u8, 69u8, 78u8, 68u8, 70u8, 84u8, 80u8,
    ]
}

/// Record 1: the file record.
pub open spec fn file_record(idword: Seq<u8>, locifn: Seq<u8>, free: u32) -> Seq<u8> {
    idword + le32(2) + le32(6) + locifn + le32(2) + le32(2) + le32(free) + ltl_ieee() + fill(404, 0)
        + ftpstr() + fill(496, 0)
}

/// What the summary of a segment records.
pub struct SegmentMeta {
    pub start_et: u64,
    pub end_et: u64,
    pub target: i32,
    pub center: i32,
    pub frame_id: i32,
    pub data_type: i32,
    pub name: Seq<char>,
}

pub open spec fn segment_meta(s: SegmentView) -> SegmentMeta {
    match s {
        SegmentView::Type3(t) => SegmentMeta {
            start_et: t.start_et,
            end_et: t.end_et,
            target: t.target,
            center: t.center,
            frame_id: t.frame_id,
            data_type: 3,
            name: t.segment_id,
        },
        SegmentView::Type9(t) => SegmentMeta {
            start_et: t.start_et,
            end_et: t.end_et,
            target: t.target,
            center: t.center,
            frame_id: t.frame_id,
            data_type: 9,
            name: t.segment_id,
        },
    }
}

/// Total number of data doubles of the segments.
pub open spec fn payload_total(segs: Seq<SegmentView>) -> nat
    decreases segs.len(),
{
    if segs.len() == 0 {
        0
    } else {
        payload_total(segs.drop_last()) + segment_payload(segs.last()).len()
    }
}

/// The data doubles of the segments, one after the other.
pub open spec fn data_doubles(segs: Seq<SegmentView>) -> Seq<u64>
    decreases segs.len(),
{
    if segs.len() == 0 {
        Seq::empty()
    } else {
        data_doubles(segs.drop_last()) + segment_payload(segs.last())
    }
}

/// DAF address of the first data double (the first double of record 4).
pub open spec fn data_start() -> int {
    385
}

/// The first DAF address of segment `i`'s data.
pub open spec fn segment_start(segs: Seq<SegmentView>, i: int) -> int {
    data_start() + payload_total(segs.take(i))
}

/// The last DAF address of segment `i`'s data.
pub open spec fn segment_end(segs: Seq<SegmentView>, i: int) -> int {
    segment_start(segs, i) + segment_payload(segs[i]).len() - 1
}

/// One 40-byte summary slot: two doubles, then six `i32`s.
pub open spec fn summary_slot(m: SegmentMeta, start: int, end: int) -> Seq<u8> {
    le64(m.start_et) + le64(m.end_et) + le32(m.target as u32) + le32(m.center as u32) + le32(
        m.frame_id as u32,
    ) + le32(m.data_type as u32) + le32(start as u32) + le32(end as u32)
}

pub open spec fn summary_slots(segs: Seq<SegmentView>) -> Seq<u8>
    decreases segs.len(),
{
    if segs.len() == 0 {
        Seq::empty()
    } else {
        let i = segs.len() - 1;
        summary_slots(segs.drop_last()) + summary_slot(
            segment_meta(segs.last()),
            segment_start(segs, i),
            segment_end(segs, i),
        )
    }
}

/// One 40-byte name slot: the id's bytes, padded with spaces.
pub open spec fn name_slot(name: Seq<char>) -> Seq<u8> {
    encode_utf8(name) + fill((40 - id_len(name)) as nat, 32)
}

pub open spec fn name_slots(segs: Seq<SegmentView>) -> Seq<u8>
    decreases segs.len(),
{
    if segs.len() == 0 {
        Seq::empty()
    } else {
        name_slots(segs.drop_last()) + name_slot(segment_meta(segs.last()).name)
    }
}

/// Record 2: `NEXT = 0`, `PREV = 0`, `NSUM`, the slots, zeros.
pub open spec fn summary_record(segs: Seq<SegmentView>) -> Seq<u8> {
    le64(0) + le64(0) + le64(count_bits(segs.len())) + summary_slots(segs) + fill(
        (1000 - 40 * segs.len()) as nat,
        0,
    )
}

/// Record 3: the name slots, then spaces.
pub open spec fn name_record(segs: Seq<SegmentView>) -> Seq<u8> {
    name_slots(segs) + fill((1024 - 40 * segs.len()) as nat, 32)
}

/// Number of data records: `ceil(total / 128)`.
pub open spec fn data_record_count(total: nat) -> nat {
    (total + 127) / 128
}

/// Records 4 and on: the data doubles, zero-padded to whole records.
pub open spec fn data_records(segs: Seq<SegmentView>) -> Seq<u8> {
    let total = payload_total(segs);
    doubles_bytes(data_doubles(segs)) + fill((1024 * data_record_count(total) - 8 * total) as nat, 0)
}

/// The whole file the writer produces.
#[verifier::opaque]
pub open spec fn spk_file_bytes(w: SpkWriterView) -> Seq<u8> {
    file_record(w.idword, w.locifn, (data_start() + payload_total(w.segments)) as u32)
        + summary_record(w.segments) + name_record(w.segments) + data_records(w.segments)
}

/// The file's addresses fit `u32` and its bytes fit memory.
pub open spec fn writer_fits(w: SpkWriterView) -> bool {
    &&& data_start() + payload_total(w.segments) <= u32::MAX
    &&& 1024 * (3 + data_record_count(payload_total(w.segments))) <= usize::MAX
}


fn push_le32(out: &mut Vec<u8>, v: u32)
    ensures
        final(out)@ == old(out)@ + le32(v),
{
    let mut b = u32_to_le_bytes(v);
    out.append(&mut b);
}

fn push_le64(out: &mut Vec<u8>, v: u64)
    ensures
        final(out)@ == old(out)@ + le64(v),
{
    let mut b = u64_to_le_bytes(v);
    out.append(&mut b);
}

fn push_fill(out: &mut Vec<u8>, b: u8, n: usize)
    ensures
        final(out)@ == old(out)@ + fill(n as nat, b),
{
    let mut i: usize = 0;
    while i < n
        invariant
            i <= n,
            out@ == old(out)@ + fill(i as nat, b),
        decreases n - i,
    {
        out.push(b);
        i += 1;
        assert(out@ =~= old(out)@ + fill(i as nat, b));
    }
}

fn push_bytes(out: &mut Vec<u8>, src: &[u8])
    ensures
        final(out)@ == old(out)@ + src@,
{
    let mut i: usize = 0;
    while i < src.len()
        invariant
            i <= src@.len(),
            out@ == old(out)@ + src@.take(i as int),
        decreases src@.len() - i,
    {
        out.push(src[i]);
        i += 1;
        assert(out@ =~= old(out)@ + src@.take(i as int));
    }
    assert(src@.take(src@.len() as int) =~= src@);
}

pub proof fn lemma_doubles_bytes_concat(a: Seq<u64>, b: Seq<u64>)
    ensures
        doubles_bytes(a + b) == doubles_bytes(a) + doubles_bytes(b),
    decreases b.len(),
{
    if b.len() == 0 {
        assert(a + b =~= a);
        assert(doubles_bytes(a) + doubles_bytes(b) =~= doubles_bytes(a));
    } else {
        lemma_doubles_bytes_concat(a, b.drop_last());
        assert((a + b).drop_last() =~= a + b.drop_last());
        assert((a + b).last() == b.last());
        assert(doubles_bytes(a) + doubles_bytes(b) =~= doubles_bytes(a) + doubles_bytes(
            b.drop_last(),
        ) + le64(b.last()));
    }
}

fn push_doubles(out: &mut Vec<u8>, d: &[u64])
    ensures
        final(out)@ == old(out)@ + doubles_bytes(d@),
{
    let mut i: usize = 0;
    while i < d.len()
        invariant
            i <= d@.len(),
            out@ == old(out)@ + doubles_bytes(d@.take(i as int)),
        decreases d@.len() - i,
    {
        push_le64(out, d[i]);
        proof {
            assert(d@.take(i + 1).drop_last() =~= d@.take(i as int));
            assert(d@.take(i + 1).last() == d@[i as int]);
        }
        i += 1;
        assert(out@ =~= old(out)@ + doubles_bytes(d@.take(i as int)));
    }
    assert(d@.take(d@.len() as int) =~= d@);
}

fn push_ltl_ieee(out: &mut Vec<u8>)
    ensures
        final(out)@ == old(out)@ + ltl_ieee(),
{
    out.push(76u8);
    out.push(84u8);
    out.push(76u8);
    out.push(45u8);
    out.push(73u8);
    out.push(69u8);
    out.push(69u8);
    out.push(69u8);
    assert(out@ =~= old(out)@ + ltl_ieee());
}

fn push_ftpstr(out: &mut Vec<u8>)
    ensures
        final(out)@ == old(out)@ + ftpstr(),
{
    let ghost start = out@;
    push_bytes(out, &[70u8, 84u8, 80u8, 83u8, 84u8, 82u8, 58u8, 13u8, 58u8, 10u8, 58u8, 13u8, 10u8, 58u8]);
    push_bytes(out, &[13u8, 0u8, 58u8, 129u8, 58u8, 16u8, 206u8, 58u8, 69u8, 78u8, 68u8, 70u8, 84u8, 80u8]);
    assert(out@ =~= start + ftpstr());
}

pub proof fn lemma_payload_total_mono(segs: Seq<SegmentView>, i: int)
    requires
        0 <= i <= segs.len(),
    ensures
        payload_total(segs.take(i)) <= payload_total(segs),
    decreases segs.len() - i,
{
    if i < segs.len() {
        lemma_payload_total_mono(segs, i + 1);
        assert(segs.take(i + 1).drop_last() =~= segs.take(i));
    } else {
        assert(segs.take(i) =~= segs);
    }
}

/// Why rows of `row_len` doubles cannot be Type 3 records
/// (`[MID, RADIUS, X[N], Y[N], Z[N], VX[N], VY[N], VZ[N]]`); `None` when
/// they can.
pub open spec fn rows_problem(row_len: nat) -> Option<&'static str> {
    if row_len < 2 + 6 {
        Some("records_coeffs must have ≥ 2+6 columns (mid, radius, then ≥1 coef per component)")
    } else if (row_len - 2) % 6 != 0 {
        Some("records_coeffs row length - 2 must be a multiple of 6")
    } else {
        None
    }
}

/// Row `r` of a row-major table of `row_len` columns, as a Type 3 record.
pub open spec fn row_record(rows: Seq<u64>, row_len: int, r: int) -> Type3RecordView {
    let base = r * row_len;
    let n = (row_len - 2) / 6;
    Type3RecordView {
        mid: rows[base],
        radius: rows[base + 1],
        x: rows.subrange(base + 2, base + 2 + n),
        y: rows.subrange(base + 2 + n, base + 2 + 2 * n),
        z: rows.subrange(base + 2 + 2 * n, base + 2 + 3 * n),
        vx: rows.subrange(base + 2 + 3 * n, base + 2 + 4 * n),
        vy: rows.subrange(base + 2 + 4 * n, base + 2 + 5 * n),
        vz: rows.subrange(base + 2 + 5 * n, base + 2 + 6 * n),
    }
}

/// Row `k` of an accepted table is record `k` column by column: column 0
/// is the midpoint, column 1 the radius, and with `n = (row_len - 2) / 6`
/// columns `2 + c n + j` hold coefficient `j` of channel `c` in the order
/// x, y, z, vx, vy, vz; the row has exactly `2 + 6 n` columns.
pub proof fn lemma_row_record_columns(rows: Seq<u64>, row_len: nat, k: int)
    requires
        rows_problem(row_len) is None,
        0 <= k,
        (k + 1) * row_len <= rows.len(),
    ensures
        ({
            let n = (row_len - 2) / 6;
            let r = row_record(rows, row_len as int, k);
            let base = k * row_len;
            &&& row_len == 2 + 6 * n
            &&& r.mid == rows[base]
            &&& r.radius == rows[base + 1]
            &&& r.x.len() == n && r.y.len() == n && r.z.len() == n
            &&& r.vx.len() == n && r.vy.len() == n && r.vz.len() == n
            &&& forall|j: int|
                0 <= j < n ==> {
                    &&& #[trigger] r.x[j] == rows[base + 2 + j]
                    &&& r.y[j] == rows[base + 2 + n + j]
                    &&& r.z[j] == rows[base + 2 + 2 * n + j]
                    &&& r.vx[j] == rows[base + 2 + 3 * n + j]
                    &&& r.vy[j] == rows[base + 2 + 4 * n + j]
                    &&& r.vz[j] == rows[base + 2 + 5 * n + j]
                }
        }),
{
    let n = (row_len - 2) / 6;
    assert((k + 1) * row_len == k * row_len + row_len) by (nonlinear_arith);
    assert(k * row_len >= 0) by (nonlinear_arith)
        requires
            k >= 0,
    ;
}

fn copy_range(src: &[u64], from: usize, to: usize) -> (r: Vec<u64>)
    requires
        from <= to <= src@.len(),
    ensures
        r@ == src@.subrange(from as int, to as int),
{
    let mut out: Vec<u64> = Vec::new();
    let mut i = from;
    while i < to
        invariant
            from <= i <= to <= src@.len(),
            out@ == src@.subrange(from as int, i as int),
        decreases to - i,
    {
        out.push(src[i]);
        i += 1;
        assert(out@ =~= src@.subrange(from as int, i as int));
    }
    out
}

/// Split a row-major table of `n_rows` rows of `row_len` doubles into
/// Type 3 records, each row `[MID, RADIUS, X[N], Y[N], Z[N], VX[N],
/// VY[N], VZ[N]]` with `N = (row_len - 2) / 6`.
pub fn type3_records_from_rows(rows: &[u64], n_rows: usize, row_len: usize) -> (r: Result<
    Vec<Type3Record>,
    &'static str,
>)
    requires
        rows@.len() == n_rows * row_len,
    ensures
        rows_problem(row_len as nat) matches Some(m) ==> r == Err::<Vec<Type3Record>, &'static str>(m),
        rows_problem(row_len as nat) is None ==> (r matches Ok(v) && v@.len() == n_rows && forall|k: int|
            0 <= k < n_rows ==> #[trigger] v@[k]@ == row_record(rows@, row_len as int, k)),
{
    if row_len < 2 + 6 {
        return Err("records_coeffs must have ≥ 2+6 columns (mid, radius, then ≥1 coef per component)");
    }
    if (row_len - 2) % 6 != 0 {
        return Err("records_coeffs row length - 2 must be a multiple of 6");
    }
    let n = (row_len - 2) / 6;
    let total = rows.len();
    let mut out: Vec<Type3Record> = Vec::new();
    let mut r: usize = 0;
    while r < n_rows
        invariant
            total == rows@.len(),
            rows@.len() == n_rows * row_len,
            row_len >= 8,
            n == (row_len - 2) / 6,
            r <= n_rows,
            out@.len() == r,
            forall|k: int| 0 <= k < r ==> #[trigger] out@[k]@ == row_record(rows@, row_len as int, k),
        decreases n_rows - r,
    {
        proof {
            assert((r + 1) * row_len <= n_rows * row_len) by (nonlinear_arith)
                requires
                    r + 1 <= n_rows,
            ;
            assert((r + 1) * row_len == r * row_len + row_len) by (nonlinear_arith);
        }
        let base = r * row_len;
        let rec = Type3Record {
            mid: rows[base],
            radius: rows[base + 1],
            x: copy_range(rows, base + 2, base + 2 + n),
            y: copy_range(rows, base + 2 + n, base + 2 + 2 * n),
            z: copy_range(rows, base + 2 + 2 * n, base + 2 + 3 * n),
            vx: copy_range(rows, base + 2 + 3 * n, base + 2 + 4 * n),
            vy: copy_range(rows, base + 2 + 4 * n, base + 2 + 5 * n),
            vz: copy_range(rows, base + 2 + 5 * n, base + 2 + 6 * n),
        };
        assert(rec@ == row_record(rows@, row_len as int, r as int));
        out.push(rec);
        r += 1;
    }
    Ok(out)
}

/// Check the shape of a table of Type 9 states (`n_rows` rows of
/// `n_cols` columns) against `n_epochs` epochs.
pub fn type9_rows_problem(n_cols: usize, n_rows: usize, n_epochs: usize) -> (r: Option<&'static str>)
    ensures
        r == (if n_cols != 6 {
            Some("states must have shape (N, 6)")
        } else if n_rows != n_epochs {
            Some("states rows must match epochs length")
        } else {
            None::<&'static str>
        }),
{
    if n_cols != 6 {
        Some("states must have shape (N, 6)")
    } else if n_rows != n_epochs {
        Some("states rows must match epochs length")
    } else {
        None
    }
}

/// Append `src` to `out`.
fn extend_bits(out: &mut Vec<u64>, src: &[u64])
    ensures
        final(out)@ == old(out)@ + src@,
{
    let mut i: usize = 0;
    while i < src.len()
        invariant
            i <= src@.len(),
            out@ == old(out)@ + src@.take(i as int),
        decreases src@.len() - i,
    {
        out.push(src[i]);
        i += 1;
        assert(out@ =~= old(out)@ + src@.take(i as int));
    }
    assert(src@.take(src@.len() as int) =~= src@);
}

/// The data of a Type 3 segment.
fn encode_type3(seg: &Type3Segment) -> (out: Vec<u64>)
    requires
        type3_problem(seg@) is None,
        seg@.records.len() * type3_rsize(seg@) + 4 <= u32::MAX,
    ensures
        out@ == type3_payload(seg@),
{
    let n_coef = seg.records[0].x.len();
    proof {
        assert(seg@.records[0].x.len() == n_coef);
        assert(type3_rsize(seg@) <= seg@.records.len() * type3_rsize(seg@)) by (nonlinear_arith)
            requires
                seg@.records.len() >= 1,
        ;
        assert(seg@.records.len() <= seg@.records.len() * type3_rsize(seg@)) by (nonlinear_arith)
            requires
                type3_rsize(seg@) >= 1,
        ;
    }
    let rsize = 2 + 6 * n_coef;
    let n_records = seg.records.len();
    let mut out: Vec<u64> = Vec::new();
    let mut i: usize = 0;
    while i < n_records
        invariant
            n_records == seg@.records.len(),
            i <= n_records,
            out@ == records_doubles(seg@.records.take(i as int)),
        decreases n_records - i,
    {
        let r = &seg.records[i];
        let ghost before = out@;
        out.push(r.mid);
        out.push(r.radius);
        extend_bits(&mut out, r.x.as_slice());
        extend_bits(&mut out, r.y.as_slice());
        extend_bits(&mut out, r.z.as_slice());
        extend_bits(&mut out, r.vx.as_slice());
        extend_bits(&mut out, r.vy.as_slice());
        extend_bits(&mut out, r.vz.as_slice());
        proof {
            assert(seg@.records.take(i + 1).drop_last() =~= seg@.records.take(i as int));
            assert(seg@.records.take(i + 1).last() == r@);
            assert(out@ =~= before + record_doubles(r@));
        }
        i += 1;
    }
    assert(seg@.records.take(n_records as int) =~= seg@.records);
    out.push(seg.init);
    out.push(seg.intlen);
    out.push(count_to_double_bits(rsize as u64));
    out.push(count_to_double_bits(n_records as u64));
    assert(out@ =~= type3_payload(seg@));
    out
}

/// The data of a Type 9 segment.
fn encode_type9(seg: &Type9Segment) -> (out: Vec<u64>)
    requires
        type9_problem(seg@) is None,
        7 * seg@.epochs.len() + type9_dir_len(seg@.epochs.len()) + 2 <= u32::MAX,
    ensures
        out@ == type9_payload(seg@),
{
    let n = seg.epochs.len();
    let n_dir = (n - 1) / 100;
    let mut out: Vec<u64> = Vec::new();
    extend_bits(&mut out, seg.states.as_slice());
    extend_bits(&mut out, seg.epochs.as_slice());
    let ghost base = out@;
    let mut k: usize = 1;
    while k <= n_dir
        invariant
            n == seg@.epochs.len(),
            n >= 1,
            n_dir == type9_dir_len(n as nat),
            1 <= k <= n_dir + 1,
            out@ == base + Seq::new((k - 1) as nat, |j: int| seg@.epochs[(j + 1) * 100 - 1]),
        decreases n_dir + 1 - k,
    {
        out.push(seg.epochs[k * 100 - 1]);
        proof {
            assert(out@ =~= base + Seq::new(k as nat, |j: int| seg@.epochs[(j + 1) * 100 - 1]));
        }
        k += 1;
    }
    out.push(count_to_double_bits(seg.degree as u64));
    out.push(count_to_double_bits(n as u64));
    assert(out@ =~= type9_payload(seg@));
    out
}


/// Append segment `seg`'s summary slot, name slot and data, its data
/// starting at address `cursor`; returns the address after its data.
fn write_segment(
    seg: &Segment,
    cursor: u32,
    slots: &mut Vec<u8>,
    names: &mut Vec<u8>,
    data: &mut Vec<u8>,
) -> (next: u32)
    requires
        segment_valid(seg@),
        cursor >= 1,
        cursor + segment_payload(seg@).len() <= u32::MAX,
    ensures
        next == cursor + segment_payload(seg@).len(),
        final(slots)@ == old(slots)@ + summary_slot(segment_meta(seg@), cursor as int, next - 1),
        final(names)@ == old(names)@ + name_slot(segment_meta(seg@).name),
        final(data)@ == old(data)@ + doubles_bytes(segment_payload(seg@)),
{
    proof {
        lemma_payload_len(seg@);
    }
    let (payload, start_et, end_et, target, center, frame_id, data_type, id) = match seg {
        Segment::Type3(t) => (encode_type3(t), t.start_et, t.end_et, t.target, t.center, t.frame_id, 3i32, t.segment_id.as_str()),
        Segment::Type9(t) => (encode_type9(t), t.start_et, t.end_et, t.target, t.center, t.frame_id, 9i32, t.segment_id.as_str()),
    };
    proof {
        assert(payload@ == segment_payload(seg@));
        assert(segment_meta(seg@) == SegmentMeta {
            start_et,
            end_et,
            target,
            center,
            frame_id,
            data_type,
            name: id@,
        });
    }
    let len = payload.len() as u32;
    let start = cursor;
    let end = cursor + len - 1;
    let ghost s0 = slots@;
    push_le64(slots, start_et);
    push_le64(slots, end_et);
    push_le32(slots, target as u32);
    push_le32(slots, center as u32);
    push_le32(slots, frame_id as u32);
    push_le32(slots, data_type as u32);
    push_le32(slots, start);
    push_le32(slots, end);
    assert(slots@ =~= s0 + summary_slot(segment_meta(seg@), cursor as int, end as int));
    let id_bytes = id.as_bytes();
    let ghost n0 = names@;
    push_bytes(names, id_bytes);
    push_fill(names, 32u8, 40 - id_bytes.len());
    assert(names@ =~= n0 + name_slot(segment_meta(seg@).name));
    push_doubles(data, payload.as_slice());
    end + 1
}

impl SpkWriter {
    #[verifier::type_invariant]
    spec fn inv(&self) -> bool {
        writer_valid(self@)
    }

    /// Construct a writer with the conventional SPK idword (`DAF/SPK `).
    pub fn new_spk(locifn: &str) -> (r: SpkWriter)
        ensures
            r@.idword == spk_idword(),
            r@.locifn == locifn_field(locifn.spec_bytes()),
            r@.segments.len() == 0,
    {
        let mut field: [u8; 60] = [32u8; 60];
        let src = locifn.as_bytes();
        let n: usize = if src.len() < 60 { src.len() } else { 60 };
        let mut i: usize = 0;
        while i < n
            invariant
                n <= 60,
                n <= src@.len(),
                src@ == locifn.spec_bytes(),
                i <= n,
                forall|k: int| 0 <= k < i ==> field@[k] == src@[k],
                forall|k: int| i <= k < 60 ==> field@[k] == 32u8,
                field@.len() == 60,
            decreases n - i,
        {
            field[i] = src[i];
            i += 1;
        }
        let w = SpkWriter { idword: [68u8, 65u8, 70u8, 47u8, 83u8, 80u8, 75u8, 32u8], locifn: field, segments: Vec::new() };
        assert(w@.idword =~= spk_idword());
        assert(w@.locifn =~= locifn_field(locifn.spec_bytes()));
        w
    }

    /// Whether the file's DAF addresses fit `u32` and its bytes fit
    /// memory (what [`SpkWriter::to_bytes`] needs).
    pub fn fits_in_file(&self) -> (r: bool)
        ensures
            r == writer_fits(self@),
    {
        proof {
            use_type_invariant(self);
        }
        let ghost segs = self@.segments;
        let n = self.segments.len();
        let mut total: u128 = 0;
        let mut i: usize = 0;
        while i < n
            invariant
                n == segs.len(),
                n == self.segments@.len(),
                segs == self@.segments,
                writer_valid(self@),
                i <= n,
                total == payload_total(segs.take(i as int)),
                total <= 0xFFFF_FFFF - 385,
            decreases n - i,
        {
            let ghost sv = segs[i as int];
            proof {
                assert(self.segments@[i as int]@ == sv);
                assert(segment_valid(sv));
                lemma_payload_len(sv);
                assert(segs.take(i + 1).drop_last() =~= segs.take(i as int));
                assert(segs.take(i + 1).last() == sv);
                lemma_payload_total_mono(segs, i + 1);
            }
            let len: u128 = match &self.segments[i] {
                Segment::Type3(t) => {
                    let n_records = t.records.len();
                    let n_coef = t.records[0].x.len();
                    if n_records > 0xFFFF_FFFF || n_coef > 0xFFFF_FFFF {
                        proof {
                            assert(t@.records[0].x.len() == n_coef);
                            assert(segment_payload_len(sv) > u32::MAX) by (nonlinear_arith)
                                requires
                                    segment_payload_len(sv) == n_records * (2 + 6 * n_coef) + 4,
                                    n_records >= 1,
                                    n_records > 0xFFFF_FFFF || n_coef > 0xFFFF_FFFF,
                            ;
                        }
                        return false;
                    }
                    proof {
                        assert(t@.records[0].x.len() == n_coef);
                        assert(n_records * (2 + 6 * n_coef) <= 0xFFFF_FFFF * (2 + 6 * 0xFFFF_FFFF)) by (nonlinear_arith)
                            requires
                                n_records <= 0xFFFF_FFFF,
                                n_coef <= 0xFFFF_FFFF,
                        ;
                    }
                    (n_records as u128) * (2 + 6 * (n_coef as u128)) + 4
                },
                Segment::Type9(t) => {
                    let m = t.epochs.len() as u128;
                    7 * m + (m - 1) / 100 + 2
                },
            };
            proof {
                assert(len == segment_payload_len(sv));
            }
            if total + len > 0xFFFF_FFFF - 385 {
                proof {
                    assert(payload_total(segs) >= total + len);
                }
                return false;
            }
            total = total + len;
            i += 1;
        }
        assert(segs.take(n as int) =~= segs);
        let records: u128 = 3 + (total + 127) / 128;
        assert(total == payload_total(segs));
        assert(records == 3 + data_record_count(payload_total(segs)));
        1024 * records <= usize::MAX as u128
    }

    /// Serialize to a byte buffer: the whole DAF/SPK file.
    pub fn to_bytes(&self) -> (r: Result<Vec<u8>, SpkWriterError>)
        requires
            self@.segments.len() <= 25 ==> writer_fits(self@),
        ensures
            writer_valid(self@),
            self@.segments.len() > 25 ==> (r matches Err(
                SpkWriterError::TooManySegments { got, max },
            ) && got == self@.segments.len() && max == 25),
            self@.segments.len() <= 25 ==> (r matches Ok(v) && v@ == spk_file_bytes(self@)),
    {
        proof {
            use_type_invariant(self);
        }
        let n = self.segments.len();
        if n > SPK_SUMMARIES_PER_RECORD {
            return Err(SpkWriterError::TooManySegments { got: n, max: SPK_SUMMARIES_PER_RECORD });
        }
        let ghost segs = self@.segments;
        let mut cursor: u32 = 385;
        let mut slots: Vec<u8> = Vec::new();
        let mut names: Vec<u8> = Vec::new();
        let mut data: Vec<u8> = Vec::new();
        let mut i: usize = 0;
        assert(segs.take(0) =~= Seq::<SegmentView>::empty());
        while i < n
            invariant
                n == segs.len(),
                n == self.segments@.len(),
                n <= 25,
                segs == self@.segments,
                writer_valid(self@),
                writer_fits(self@),
                i <= n,
                cursor == data_start() + payload_total(segs.take(i as int)),
                slots@ == summary_slots(segs.take(i as int)),
                names@ == name_slots(segs.take(i as int)),
                data@ == doubles_bytes(data_doubles(segs.take(i as int))),
            decreases n - i,
        {
            let ghost sv = segs[i as int];
            proof {
                assert(self.segments@[i as int]@ == sv);
                assert(segment_valid(sv));
                lemma_payload_total_mono(segs, i + 1);
                assert(segs.take(i + 1).drop_last() =~= segs.take(i as int));
                assert(segs.take(i + 1).last() == sv);
                lemma_payload_len(sv);
            }
            let ghost tk = segs.take(i + 1);
            proof {
                assert(tk.take(i as int) =~= segs.take(i as int));
                assert(tk[i as int] == sv);
            }
            let next = write_segment(&self.segments[i], cursor, &mut slots, &mut names, &mut data);
            proof {
                assert(cursor == segment_start(tk, i as int));
                assert(next - 1 == segment_end(tk, i as int));
                lemma_doubles_bytes_concat(data_doubles(segs.take(i as int)), segment_payload(sv));
                assert(data_doubles(tk) == data_doubles(segs.take(i as int)) + segment_payload(sv));
            }
            cursor = next;
            i += 1;
        }
        assert(segs.take(n as int) =~= segs);
        let total = (cursor - 385) as usize;
        let n_data_records = (total + 127) / 128;
        proof {
            assert(n_data_records * 128 >= total) by (nonlinear_arith)
                requires
                    n_data_records == (total + 127) / 128,
            ;
        }
        let mut out: Vec<u8> = Vec::new();
        // Record 1: the file record.
        push_bytes(&mut out, self.idword.as_slice());
        push_le32(&mut out, SPK_ND);
        push_le32(&mut out, SPK_NI);
        push_bytes(&mut out, self.locifn.as_slice());
        push_le32(&mut out, 2);
        push_le32(&mut out, 2);
        push_le32(&mut out, cursor);
        push_ltl_ieee(&mut out);
        push_fill(&mut out, 0u8, 404);
        push_ftpstr(&mut out);
        push_fill(&mut out, 0u8, 496);
        let ghost rec1 = out@;
        // Record 2: the summary record.
        push_le64(&mut out, 0);
        push_le64(&mut out, 0);
        push_le64(&mut out, count_to_double_bits(n as u64));
        push_bytes(&mut out, slots.as_slice());
        push_fill(&mut out, 0u8, 1000 - 40 * n);
        let ghost rec2 = out@;
        // Record 3: the name record.
        push_bytes(&mut out, names.as_slice());
        push_fill(&mut out, 32u8, 1024 - 40 * n);
        let ghost rec3 = out@;
        // Records 4 and on: the data.
        push_bytes(&mut out, data.as_slice());
        push_fill(&mut out, 0u8, 1024 * n_data_records - 8 * total);
        proof {
            assert(rec1 =~= file_record(self@.idword, self@.locifn, cursor));
            assert(rec2 =~= rec1 + summary_record(segs));
            assert(rec3 =~= rec2 + name_record(segs));
            assert(out@ =~= rec3 + data_records(segs));
            reveal(spk_file_bytes);
        }
        Ok(out)
    }

    /// Append a Type 3 segment after checking it.
    pub fn add_type3(&mut self, seg: Type3Segment) -> (r: Result<(), SpkWriterError>)
        ensures
            !id_fits(seg@.segment_id) ==> (r matches Err(SpkWriterError::SegmentIdTooLong(s))
                && s@ == seg@.segment_id),
            id_fits(seg@.segment_id) && type3_problem(seg@) is Some ==> (r matches Err(
                SpkWriterError::BadType3(m),
            ) && m == type3_problem(seg@)->0),
            r is Err ==> final(self)@ == old(self)@,
            id_fits(seg@.segment_id) && type3_problem(seg@) is None ==> r is Ok,
            r is Ok ==> final(self)@ == (SpkWriterView {
                segments: old(self)@.segments.push(SegmentView::Type3(seg@)),
                ..old(self)@
            }),
    {
        proof {
            use_type_invariant(&*self);
        }
        match validate_segment_id(seg.segment_id.as_str()) {
            Ok(()) => {},
            Err(e) => return Err(e),
        }
        if seg.records.len() == 0 {
            return Err(SpkWriterError::BadType3("empty records"));
        }
        let n_coef = seg.records[0].x.len();
        if n_coef == 0 {
            return Err(SpkWriterError::BadType3("degree < 0"));
        }
        let mut i: usize = 0;
        while i < seg.records.len()
            invariant
                id_fits(seg@.segment_id),
                seg@.records.len() > 0,
                n_coef > 0,
                i <= seg.records@.len(),
                n_coef == seg@.records[0].x.len(),
                records_have_width(seg@.records.take(i as int), n_coef as int),
            decreases seg.records@.len() - i,
        {
            let r = &seg.records[i];
            if r.x.len() != n_coef || r.y.len() != n_coef || r.z.len() != n_coef || r.vx.len()
                != n_coef || r.vy.len() != n_coef || r.vz.len() != n_coef {
                assert(seg@.records[i as int] == r@);
                assert(!records_have_width(seg@.records, n_coef as int)) by {
                    assert(seg@.records[i as int].x.len() == r@.x.len());
                }
                return Err(SpkWriterError::BadType3("inconsistent coefficient count"));
            }
            proof {
                assert forall|k: int| 0 <= k < i + 1 implies #[trigger] seg@.records.take(
                    i + 1,
                )[k].x.len() == n_coef && seg@.records.take(i + 1)[k].y.len() == n_coef
                    && seg@.records.take(i + 1)[k].z.len() == n_coef && seg@.records.take(
                    i + 1,
                )[k].vx.len() == n_coef && seg@.records.take(i + 1)[k].vy.len() == n_coef
                    && seg@.records.take(i + 1)[k].vz.len() == n_coef by {
                    if k < i {
                        assert(seg@.records.take(i + 1)[k] == seg@.records.take(i as int)[k]);
                    }
                }
            }
            i += 1;
        }
        assert(seg@.records.take(seg@.records.len() as int) =~= seg@.records);
        if double_le_exec(seg.intlen, 0) {
            return Err(SpkWriterError::BadType3("INTLEN must be > 0"));
        }
        let ghost old_self = self@;
        let ghost sv = seg@;
        let ghost old_segs = self.segments@;
        let mut segs: Vec<Segment> = Vec::new();
        std::mem::swap(&mut segs, &mut self.segments);
        segs.push(Segment::Type3(seg));
        proof {
            assert forall|k: int| 0 <= k < segs@.len() implies segment_valid(#[trigger] segs@[k]@) by {
                if k < old_segs.len() {
                    assert(segs@[k] == old_segs[k]);
                    assert(old_self.segments[k] == old_segs[k]@);
                } else {
                    assert(segs@[k]@ == SegmentView::Type3(sv));
                }
            }
        }
        self.segments = segs;
        proof {
            assert(self@.segments =~= old_self.segments.push(SegmentView::Type3(sv)));
        }
        Ok(())
    }

    /// Append a Type 9 segment after checking it.
    pub fn add_type9(&mut self, seg: Type9Segment) -> (r: Result<(), SpkWriterError>)
        ensures
            !id_fits(seg@.segment_id) ==> (r matches Err(SpkWriterError::SegmentIdTooLong(s))
                && s@ == seg@.segment_id),
            id_fits(seg@.segment_id) && type9_problem(seg@) is Some ==> (r matches Err(
                SpkWriterError::BadType9(m),
            ) && m == type9_problem(seg@)->0),
            r is Err ==> final(self)@ == old(self)@,
            id_fits(seg@.segment_id) && type9_problem(seg@) is None ==> r is Ok,
            r is Ok ==> final(self)@ == (SpkWriterView {
                segments: old(self)@.segments.push(SegmentView::Type9(seg@)),
                ..old(self)@
            }),
    {
        proof {
            use_type_invariant(&*self);
        }
        match validate_segment_id(seg.segment_id.as_str()) {
            Ok(()) => {},
            Err(e) => return Err(e),
        }
        let n = seg.epochs.len();
        if n == 0 {
            return Err(SpkWriterError::BadType9("no epochs"));
        }
        let sl = seg.states.len();
        if n > usize::MAX / 6 || sl != 6 * n {
            return Err(SpkWriterError::BadType9("states length != 6 * epochs length"));
        }
        if seg.degree < 1 {
            return Err(SpkWriterError::BadType9("degree < 1"));
        }
        if (seg.degree as usize) + 1 > n {
            return Err(SpkWriterError::BadType9("window (degree+1) exceeds sample count"));
        }
        let mut i: usize = 0;
        while i + 1 < n
            invariant
                id_fits(seg@.segment_id),
                seg@.states.len() == 6 * n,
                seg@.degree >= 1,
                seg@.degree + 1 <= n,
                n == seg@.epochs.len(),
                n >= 1,
                i + 1 <= n,
                forall|k: int| 0 <= k < i ==> #[trigger] double_lt(seg@.epochs[k], seg@.epochs[k + 1]),
            decreases n - i,
        {
            if !double_lt_exec(seg.epochs[i], seg.epochs[i + 1]) {
                assert(!strictly_increasing(seg@.epochs)) by {
                    assert(!double_lt(seg@.epochs[i as int], seg@.epochs[i + 1]));
                }
                return Err(SpkWriterError::BadType9("epochs must be strictly increasing"));
            }
            i += 1;
        }
        let ghost old_self = self@;
        let ghost sv = seg@;
        let ghost old_segs = self.segments@;
        let mut segs: Vec<Segment> = Vec::new();
        std::mem::swap(&mut segs, &mut self.segments);
        segs.push(Segment::Type9(seg));
        proof {
            assert forall|k: int| 0 <= k < segs@.len() implies segment_valid(#[trigger] segs@[k]@) by {
                if k < old_segs.len() {
                    assert(segs@[k] == old_segs[k]);
                    assert(old_self.segments[k] == old_segs[k]@);
                } else {
                    assert(segs@[k]@ == SegmentView::Type9(sv));
                }
            }
        }
        self.segments = segs;
        proof {
            assert(self@.segments =~= old_self.segments.push(SegmentView::Type9(sv)));
        }
        Ok(())
    }
}

/// Check that a segment id fits its 40-byte name slot.
pub fn validate_segment_id(id: &str) -> (r: Result<(), SpkWriterError>)
    ensures
        id_fits(id@) ==> r is Ok,
        !id_fits(id@) ==> (r matches Err(SpkWriterError::SegmentIdTooLong(s)) && s@ == id@),
{
    let bytes = id.as_bytes();
    if bytes.len() > 40 {
        return Err(SpkWriterError::SegmentIdTooLong(id.to_owned()));
    }
    Ok(())
}

} // verus!
