//! Binary PCK (Planetary Constants Kernel) reader: the segment table and
//! the choice of segment for an orientation lookup.
//!
//! Binary PCK shares the DAF container with SPK, but its summaries carry
//! five integers (body frame, reference frame, data type, start and end
//! address). Type 2 payloads are Chebyshev records of three Euler angles
//! (the NAIF 3-1-3 convention); evaluating them is floating-point
//! arithmetic and is done by the caller. When segments overlap, the one
//! loaded last wins.

use vstd::prelude::*;

use crate::daf::{daf_summaries, summaries_view, DafError, DafFile, SummaryView};
use crate::double_word::{double_le, double_le_exec};
use crate::trailer::{back, chebyshev_check, check_chebyshev, read_block, read_trailer, ChebyshevMeta};

verus! {

/// Errors of the PCK reader.
#[derive(Debug)]
pub enum PckError {
    Daf(DafError),
    NoCoverage { body: i32, ref_frame: i32, et: u64 },
    UnsupportedType(i32),
    BadType2(&'static str),
}

#[derive(Debug, Clone, Copy)]
pub enum PckPayload {
    /// Chebyshev Euler angles; rates are their derivatives.
    Type2(ChebyshevMeta),
    Unsupported,
}

/// One PCK segment.
#[derive(Debug, Clone)]
pub struct PckSegment {
    /// Body-fixed frame ID described by this segment (e.g. 3000 for ITRF93).
    pub body_frame: i32,
    /// Inertial reference frame ID.
    pub ref_frame: i32,
    pub data_type: i32,
    pub start_et: u64,
    pub end_et: u64,
    pub name: String,
    pub payload: PckPayload,
}

pub struct PckSegmentView {
    pub body_frame: i32,
    pub ref_frame: i32,
    pub data_type: i32,
    pub start_et: u64,
    pub end_et: u64,
    pub name: Seq<char>,
    pub payload: PckPayload,
}

impl View for PckSegment {
    type V = PckSegmentView;

    open spec fn view(&self) -> PckSegmentView {
        PckSegmentView {
            body_frame: self.body_frame,
            ref_frame: self.ref_frame,
            data_type: self.data_type,
            start_et: self.start_et,
            end_et: self.end_et,
            name: self.name@,
            payload: self.payload,
        }
    }
}

/// The payload of a segment of data type `dt` at `[start, end]`.
pub open spec fn pck_payload(s: Seq<u8>, dt: i32, start: u32, end: u32) -> Result<PckPayload, PckError> {
    if dt == 2 {
        match read_block(s, back(end, 3), end) {
            Err(e) => Err(PckError::Daf(e)),
            Ok(t) => match chebyshev_check(
                t,
                start,
                3,
                "RSIZE not 2 + 3N",
                "degree<0 or INTLEN<=0",
                "degree<0 or INTLEN<=0",
            ) {
                Err(m) => Err(PckError::BadType2(m)),
                Ok(c) => Ok(PckPayload::Type2(c)),
            },
        }
    } else {
        Ok(PckPayload::Unsupported)
    }
}

/// The segment of one summary; `None` when the summary is too short to
/// be a PCK summary (it is skipped).
pub open spec fn pck_segment_of(s: Seq<u8>, sm: SummaryView) -> Option<Result<PckSegmentView, PckError>> {
    if sm.doubles.len() < 2 || sm.integers.len() < 5 {
        None
    } else {
        let start_addr = #[verifier::truncate] (sm.integers[3] as u32);
        let end_addr = #[verifier::truncate] (sm.integers[4] as u32);
        Some(
            match pck_payload(s, sm.integers[2], start_addr, end_addr) {
                Err(e) => Err(e),
                Ok(p) => Ok(
                    PckSegmentView {
                        body_frame: sm.integers[0],
                        ref_frame: sm.integers[1],
                        data_type: sm.integers[2],
                        start_et: sm.doubles[0],
                        end_et: sm.doubles[1],
                        name: sm.name,
                        payload: p,
                    },
                ),
            },
        )
    }
}

/// The segments of a run of summaries, in order; the first error stops.
pub open spec fn pck_segments_of(s: Seq<u8>, sums: Seq<SummaryView>) -> Result<Seq<PckSegmentView>, PckError>
    decreases sums.len(),
{
    if sums.len() == 0 {
        Ok(Seq::empty())
    } else {
        match pck_segments_of(s, sums.drop_last()) {
            Err(e) => Err(e),
            Ok(prev) => match pck_segment_of(s, sums.last()) {
                None => Ok(prev),
                Some(Err(e)) => Err(e),
                Some(Ok(seg)) => Ok(prev.push(seg)),
            },
        }
    }
}

/// The segment table of the PCK file with these bytes.
pub open spec fn pck_segments(s: Seq<u8>) -> Result<Seq<PckSegmentView>, PckError> {
    match daf_summaries(s) {
        Err(e) => Err(PckError::Daf(e)),
        Ok(sums) => pck_segments_of(s, sums),
    }
}

pub open spec fn pck_segments_view(v: Seq<PckSegment>) -> Seq<PckSegmentView> {
    Seq::new(v.len(), |i: int| v[i]@)
}

/// Segment `seg` describes `body_frame` at `et` (`start_et <= et <= end_et`).
pub open spec fn describes(seg: PckSegmentView, body_frame: i32, et: u64) -> bool {
    seg.body_frame == body_frame && double_le(seg.start_et, et) && double_le(et, seg.end_et)
}

/// The last index below `n` of a segment that describes `body_frame` at `et`.
pub open spec fn last_describing(segs: Seq<PckSegmentView>, body_frame: i32, et: u64, n: int) -> Option<int>
    decreases n,
{
    if n <= 0 {
        None
    } else if describes(segs[n - 1], body_frame, et) {
        Some(n - 1)
    } else {
        last_describing(segs, body_frame, et, n - 1)
    }
}

/// What an orientation lookup of `body_frame` at `et` uses: the segment
/// loaded last among those describing it, or the error.
pub open spec fn orientation_source(segs: Seq<PckSegmentView>, body_frame: i32, et: u64) -> Result<
    usize,
    PckError,
> {
    match last_describing(segs, body_frame, et, segs.len() as int) {
        None => Err(PckError::NoCoverage { body: body_frame, ref_frame: 1, et }),
        Some(i) => match segs[i].payload {
            PckPayload::Unsupported => Err(PckError::UnsupportedType(segs[i].data_type)),
            PckPayload::Type2(_) => Ok(i as usize),
        },
    }
}

/// Last-loaded wins: a segment appended after the others, describing
/// `body_frame` at `et`, is the one an orientation lookup reads.
pub proof fn lemma_later_segment_wins(segs: Seq<PckSegmentView>, seg: PckSegmentView, body_frame: i32, et: u64)
    requires
        describes(seg, body_frame, et),
        seg.payload is Type2,
    ensures
        orientation_source(segs.push(seg), body_frame, et) == Ok::<usize, PckError>(segs.len() as usize),
{
    assert(segs.push(seg)[segs.len() as int] == seg);
}

/// A loaded binary PCK file.
pub struct PckFile {
    daf: DafFile,
    segments: Vec<PckSegment>,
}

pub struct PckFileView {
    pub bytes: Seq<u8>,
    pub segments: Seq<PckSegmentView>,
}

impl View for PckFile {
    type V = PckFileView;

    closed spec fn view(&self) -> PckFileView {
        PckFileView { bytes: self.daf@, segments: pck_segments_view(self.segments@) }
    }
}

fn read_payload(daf: &DafFile, dt: i32, start: u32, end: u32) -> (r: Result<PckPayload, PckError>)
    ensures
        r == pck_payload(daf@, dt, start, end),
{
    if dt == 2 {
        let t = match read_trailer(daf, end, 3) {
            Ok(t) => t,
            Err(e) => return Err(PckError::Daf(e)),
        };
        match check_chebyshev(
            t.as_slice(),
            start,
            3,
            "RSIZE not 2 + 3N",
            "degree<0 or INTLEN<=0",
            "degree<0 or INTLEN<=0",
        ) {
            Err(m) => Err(PckError::BadType2(m)),
            Ok(c) => Ok(PckPayload::Type2(c)),
        }
    } else {
        Ok(PckPayload::Unsupported)
    }
}

/// Once the summaries up to `k` give an error, so do all of them.
proof fn lemma_pck_error_sticks(s: Seq<u8>, sums: Seq<SummaryView>, k: int)
    requires
        0 <= k <= sums.len(),
        pck_segments_of(s, sums.take(k)) is Err,
    ensures
        pck_segments_of(s, sums) == pck_segments_of(s, sums.take(k)),
    decreases sums.len() - k,
{
    if k < sums.len() {
        assert(sums.take(k + 1).drop_last() =~= sums.take(k));
        lemma_pck_error_sticks(s, sums, k + 1);
    } else {
        assert(sums.take(k) =~= sums);
    }
}

impl PckFile {
    /// Build the segment table of a DAF file, one segment per summary in
    /// chain order (see [`DafFile::summaries`]).
    pub fn from_daf(daf: DafFile) -> (r: Result<PckFile, PckError>)
        requires
            daf@.len() < 0xFFFF_FFFF * 1024,
        ensures
            match pck_segments(daf@) {
                Ok(v) => r matches Ok(f) && f@.segments == v && f@.bytes == daf@,
                Err(e) => r matches Err(x) && x == e,
            },
    {
        let sums = match daf.summaries() {
            Ok(s) => s,
            Err(e) => return Err(PckError::Daf(e)),
        };
        let ghost sv = summaries_view(sums@);
        let mut segments: Vec<PckSegment> = Vec::new();
        let mut i: usize = 0;
        proof {
            assert(sv.take(0) =~= Seq::<SummaryView>::empty());
            assert(pck_segments_view(segments@) =~= Seq::<PckSegmentView>::empty());
        }
        while i < sums.len()
            invariant
                sv == summaries_view(sums@),
                daf_summaries(daf@) == Ok::<Seq<SummaryView>, DafError>(sv),
                i <= sums@.len(),
                pck_segments_of(daf@, sv.take(i as int)) == Ok::<Seq<PckSegmentView>, PckError>(
                    pck_segments_view(segments@),
                ),
            decreases sums@.len() - i,
        {
            let sm = &sums[i];
            proof {
                assert(sv.take(i + 1).drop_last() =~= sv.take(i as int));
                assert(sv.take(i + 1).last() == sm@);
            }
            if sm.doubles.len() < 2 || sm.integers.len() < 5 {
                i += 1;
                continue;
            }
            let start_addr = #[verifier::truncate] (sm.integers[3] as u32);
            let end_addr = #[verifier::truncate] (sm.integers[4] as u32);
            let payload = match read_payload(&daf, sm.integers[2], start_addr, end_addr) {
                Ok(p) => p,
                Err(e) => {
                    proof {
                        lemma_pck_error_sticks(daf@, sv, i as int + 1);
                    }
                    return Err(e);
                },
            };
            let seg = PckSegment {
                body_frame: sm.integers[0],
                ref_frame: sm.integers[1],
                data_type: sm.integers[2],
                start_et: sm.doubles[0],
                end_et: sm.doubles[1],
                name: sm.name.clone(),
                payload,
            };
            let ghost old_segments = segments@;
            segments.push(seg);
            proof {
                assert(pck_segments_view(segments@) =~= pck_segments_view(old_segments).push(seg@));
            }
            i += 1;
        }
        assert(sv.take(sums@.len() as int) =~= sv);
        Ok(PckFile { daf, segments })
    }

    /// The segments, in file order.
    pub fn segments(&self) -> (r: &[PckSegment])
        ensures
            pck_segments_view(r@) == self@.segments,
    {
        self.segments.as_slice()
    }

    /// The DAF container the segments' data lives in.
    pub fn daf(&self) -> (r: &DafFile)
        ensures
            r@ == self@.bytes,
    {
        &self.daf
    }

    /// The segment an orientation lookup of `body_frame` at `et` reads:
    /// newest first, so a segment loaded later wins where segments
    /// overlap.
    pub fn orientation_segment(&self, body_frame: i32, et: u64) -> (r: Result<usize, PckError>)
        ensures
            r == orientation_source(self@.segments, body_frame, et),
    {
        let ghost segs = self@.segments;
        let mut n = self.segments.len();
        while n > 0
            invariant
                segs == self@.segments,
                n <= segs.len(),
                last_describing(segs, body_frame, et, segs.len() as int) == last_describing(
                    segs,
                    body_frame,
                    et,
                    n as int,
                ),
            decreases n,
        {
            let seg = &self.segments[n - 1];
            assert(segs[n - 1] == seg@);
            if seg.body_frame == body_frame && double_le_exec(seg.start_et, et) && double_le_exec(
                et,
                seg.end_et,
            ) {
                return match seg.payload {
                    PckPayload::Unsupported => Err(PckError::UnsupportedType(seg.data_type)),
                    PckPayload::Type2(_) => Ok(n - 1),
                };
            }
            n -= 1;
        }
        Err(PckError::NoCoverage { body: body_frame, ref_frame: 1, et })
    }
}

} // verus!
