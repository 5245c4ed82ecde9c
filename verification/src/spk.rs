//! SPK (Spacecraft and Planet Kernel) reader: the segment table and the
//! decisions that route a state lookup.
//!
//! Parses DAF summaries into typed [`SpkSegment`]s (Types 2, 3, 9 and 13
//! are understood; others are kept as unsupported), and decides which
//! segments a lookup of `target` relative to `center` at an epoch reads:
//! a single covering segment for the pair (or its reverse, negated), or
//! the chains of segments from each body to the solar-system barycenter
//! (NAIF 0). Evaluating a segment's polynomial at an epoch is
//! floating-point arithmetic and is done by the caller. Epochs are TDB
//! seconds past J2000, held as the bits of an `f64`.

use vstd::prelude::*;

use crate::daf::{daf_summaries, summaries_view, DafError, DafFile, SummaryView};
use crate::double_word::{double_le, double_le_exec, double_lt, order_key};
use crate::trailer::{
    back, chebyshev_check, check_chebyshev, check_discrete, discrete_check, read_block,
    read_trailer, ChebyshevMeta, DiscreteMeta,
};

verus! {

/// Errors of the SPK reader.
#[derive(Debug)]
pub enum SpkError {
    Daf(DafError),
    NoCoverage { target: i32, center: i32, et: u64 },
    UnsupportedType(i32),
    BadType2(&'static str),
}

/// How a segment's data is laid out, by data type.
#[derive(Debug, Clone, Copy)]
pub enum SpkPayload {
    /// Chebyshev position; velocity is its derivative.
    Type2(ChebyshevMeta),
    /// Chebyshev position and velocity.
    Type3(ChebyshevMeta),
    /// Lagrange interpolation of discrete states (`window_or_degree` is
    /// the degree).
    Type9(DiscreteMeta),
    /// Hermite interpolation of discrete states (`window_or_degree` is
    /// the window size less one).
    Type13(DiscreteMeta),
    Unsupported,
}

/// One SPK segment: the summary's metadata and the payload layout.
#[derive(Debug, Clone)]
pub struct SpkSegment {
    pub target: i32,
    pub center: i32,
    pub frame: i32,
    pub data_type: i32,
    pub start_et: u64,
    pub end_et: u64,
    pub start_addr: u32,
    pub end_addr: u32,
    pub name: String,
    pub payload: SpkPayload,
}

pub struct SpkSegmentView {
    pub target: i32,
    pub center: i32,
    pub frame: i32,
    pub data_type: i32,
    pub start_et: u64,
    pub end_et: u64,
    pub start_addr: u32,
    pub end_addr: u32,
    pub name: Seq<char>,
    pub payload: SpkPayload,
}

impl View for SpkSegment {
    type V = SpkSegmentView;

    open spec fn view(&self) -> SpkSegmentView {
        SpkSegmentView {
            target: self.target,
            center: self.center,
            frame: self.frame,
            data_type: self.data_type,
            start_et: self.start_et,
            end_et: self.end_et,
            start_addr: self.start_addr,
            end_addr: self.end_addr,
            name: self.name@,
            payload: self.payload,
        }
    }
}

/// The payload of a segment of data type `dt` at `[start, end]`.
pub open spec fn spk_payload(s: Seq<u8>, dt: i32, start: u32, end: u32) -> Result<SpkPayload, SpkError> {
    if dt == 2 || dt == 3 {
        match read_block(s, back(end, 3), end) {
            Err(e) => Err(SpkError::Daf(e)),
            Ok(t) => {
                let checked = if dt == 2 {
                    chebyshev_check(t, start, 3, "RSIZE not 2 + 3N", "degree < 0", "INTLEN <= 0")
                } else {
                    chebyshev_check(
                        t,
                        start,
                        6,
                        "RSIZE not 2 + 6N",
                        "degree<0 or INTLEN<=0",
                        "degree<0 or INTLEN<=0",
                    )
                };
                match checked {
                    Err(m) => Err(SpkError::BadType2(m)),
                    Ok(c) => Ok(
                        if dt == 2 {
                            SpkPayload::Type2(c)
                        } else {
                            SpkPayload::Type3(c)
                        },
                    ),
                }
            },
        }
    } else if dt == 9 || dt == 13 {
        match read_block(s, back(end, 1), end) {
            Err(e) => Err(SpkError::Daf(e)),
            Ok(t) => match discrete_check(t, start, end) {
                Err(m) => Err(SpkError::BadType2(m)),
                Ok(d) => if dt == 9 {
                    Ok(SpkPayload::Type9(d))
                } else if d.window_or_degree == 0 {
                    Err(SpkError::BadType2("Type 13 window size < 2"))
                } else {
                    Ok(SpkPayload::Type13(d))
                },
            },
        }
    } else {
        Ok(SpkPayload::Unsupported)
    }
}

/// The segment of one summary; `None` when the summary is too short
/// to be an SPK summary (it is skipped).
pub open spec fn spk_segment_of(s: Seq<u8>, sm: SummaryView) -> Option<Result<SpkSegmentView, SpkError>> {
    if sm.doubles.len() < 2 || sm.integers.len() < 6 {
        None
    } else {
        let start_addr = #[verifier::truncate] (sm.integers[4] as u32);
        let end_addr = #[verifier::truncate] (sm.integers[5] as u32);
        Some(
            match spk_payload(s, sm.integers[3], start_addr, end_addr) {
                Err(e) => Err(e),
                Ok(p) => Ok(
                    SpkSegmentView {
                        target: sm.integers[0],
                        center: sm.integers[1],
                        frame: sm.integers[2],
                        data_type: sm.integers[3],
                        start_et: sm.doubles[0],
                        end_et: sm.doubles[1],
                        start_addr,
                        end_addr,
                        name: sm.name,
                        payload: p,
                    },
                ),
            },
        )
    }
}

/// The segments of a run of summaries, in order; the first error stops.
pub open spec fn spk_segments_of(s: Seq<u8>, sums: Seq<SummaryView>) -> Result<Seq<SpkSegmentView>, SpkError>
    decreases sums.len(),
{
    if sums.len() == 0 {
        Ok(Seq::empty())
    } else {
        match spk_segments_of(s, sums.drop_last()) {
            Err(e) => Err(e),
            Ok(prev) => match spk_segment_of(s, sums.last()) {
                None => Ok(prev),
                Some(Err(e)) => Err(e),
                Some(Ok(seg)) => Ok(prev.push(seg)),
            },
        }
    }
}

/// A summary long enough to describe an SPK segment.
pub open spec fn is_spk_summary(sm: SummaryView) -> bool {
    sm.doubles.len() >= 2 && sm.integers.len() >= 6
}

/// The summaries that describe segments, in order.
pub open spec fn segment_summaries(sums: Seq<SummaryView>) -> Seq<SummaryView> {
    sums.filter(|sm: SummaryView| is_spk_summary(sm))
}

/// The segment table lines up with the summaries: once built, it holds
/// one segment per summary long enough to be an SPK summary, in summary
/// order, each with that summary's target, center, frame, data type,
/// coverage, addresses and name (summaries too short are skipped).
pub proof fn lemma_segments_follow_summaries(s: Seq<u8>, sums: Seq<SummaryView>)
    requires
        spk_segments_of(s, sums) is Ok,
    ensures
        spk_segments_of(s, sums)->Ok_0.len() == segment_summaries(sums).len(),
        forall|k: int|
            0 <= k < segment_summaries(sums).len() ==> spk_segment_of(s, #[trigger] segment_summaries(sums)[k])
                == Some(Ok::<SpkSegmentView, SpkError>(spk_segments_of(s, sums)->Ok_0[k])),
    decreases sums.len(),
{
    reveal(Seq::filter);
    if sums.len() > 0 {
        let prev = sums.drop_last();
        lemma_segments_follow_summaries(s, prev);
        let kp = segment_summaries(prev);
        let vp = spk_segments_of(s, prev)->Ok_0;
        assert(sums.filter(|sm: SummaryView| is_spk_summary(sm)) == (if is_spk_summary(sums.last()) {
            kp.push(sums.last())
        } else {
            kp
        }));
        if is_spk_summary(sums.last()) {
            let v = spk_segments_of(s, sums)->Ok_0;
            assert(v == vp.push(spk_segment_of(s, sums.last())->0->Ok_0));
            assert forall|k: int| 0 <= k < segment_summaries(sums).len() implies spk_segment_of(
                s,
                #[trigger] segment_summaries(sums)[k],
            ) == Some(Ok::<SpkSegmentView, SpkError>(v[k])) by {
                if k < kp.len() {
                    assert(segment_summaries(sums)[k] == kp[k]);
                }
            }
        }
    } else {
        assert(segment_summaries(sums) =~= Seq::<SummaryView>::empty());
    }
}

/// The segment table of the SPK file with these bytes.
pub open spec fn spk_segments(s: Seq<u8>) -> Result<Seq<SpkSegmentView>, SpkError> {
    match daf_summaries(s) {
        Err(e) => Err(SpkError::Daf(e)),
        Ok(sums) => spk_segments_of(s, sums),
    }
}

pub open spec fn segments_view(v: Seq<SpkSegment>) -> Seq<SpkSegmentView> {
    Seq::new(v.len(), |i: int| v[i]@)
}

/// A loaded SPK file: the DAF container and its segment table.
pub struct SpkFile {
    daf: DafFile,
    segments: Vec<SpkSegment>,
}

pub struct SpkFileView {
    pub bytes: Seq<u8>,
    pub segments: Seq<SpkSegmentView>,
}

impl View for SpkFile {
    type V = SpkFileView;

    closed spec fn view(&self) -> SpkFileView {
        SpkFileView { bytes: self.daf@, segments: segments_view(self.segments@) }
    }
}

/// The payload of a segment of data type `dt` at `[start, end]`.
fn read_payload(daf: &DafFile, dt: i32, start: u32, end: u32) -> (r: Result<SpkPayload, SpkError>)
    ensures
        r == spk_payload(daf@, dt, start, end),
{
    if dt == 2 || dt == 3 {
        let t = match read_trailer(daf, end, 3) {
            Ok(t) => t,
            Err(e) => return Err(SpkError::Daf(e)),
        };
        let checked = if dt == 2 {
            check_chebyshev(t.as_slice(), start, 3, "RSIZE not 2 + 3N", "degree < 0", "INTLEN <= 0")
        } else {
            check_chebyshev(
                t.as_slice(),
                start,
                6,
                "RSIZE not 2 + 6N",
                "degree<0 or INTLEN<=0",
                "degree<0 or INTLEN<=0",
            )
        };
        match checked {
            Err(m) => Err(SpkError::BadType2(m)),
            Ok(c) => Ok(
                if dt == 2 {
                    SpkPayload::Type2(c)
                } else {
                    SpkPayload::Type3(c)
                },
            ),
        }
    } else if dt == 9 || dt == 13 {
        let t = match read_trailer(daf, end, 1) {
            Ok(t) => t,
            Err(e) => return Err(SpkError::Daf(e)),
        };
        match check_discrete(t.as_slice(), start, end) {
            Err(m) => Err(SpkError::BadType2(m)),
            Ok(d) => if dt == 9 {
                Ok(SpkPayload::Type9(d))
            } else if d.window_or_degree == 0 {
                Err(SpkError::BadType2("Type 13 window size < 2"))
            } else {
                Ok(SpkPayload::Type13(d))
            },
        }
    } else {
        Ok(SpkPayload::Unsupported)
    }
}

impl SpkFile {
    /// Build the segment table of a DAF file, one segment per summary in
    /// chain order (see [`DafFile::summaries`]).
    pub fn from_daf(daf: DafFile) -> (r: Result<SpkFile, SpkError>)
        requires
            daf@.len() < 0xFFFF_FFFF * 1024,
        ensures
            match spk_segments(daf@) {
                Ok(v) => r matches Ok(f) && f@.segments == v && f@.bytes == daf@,
                Err(e) => r matches Err(x) && x == e,
            },
    {
        let sums = match daf.summaries() {
            Ok(s) => s,
            Err(e) => return Err(SpkError::Daf(e)),
        };
        let ghost sv = summaries_view(sums@);
        let mut segments: Vec<SpkSegment> = Vec::new();
        let mut i: usize = 0;
        proof {
            assert(sv.take(0) =~= Seq::<SummaryView>::empty());
            assert(segments_view(segments@) =~= Seq::<SpkSegmentView>::empty());
        }
        while i < sums.len()
            invariant
                sv == summaries_view(sums@),
                daf_summaries(daf@) == Ok::<Seq<SummaryView>, DafError>(sv),
                i <= sums@.len(),
                spk_segments_of(daf@, sv.take(i as int)) == Ok::<Seq<SpkSegmentView>, SpkError>(
                    segments_view(segments@),
                ),
            decreases sums@.len() - i,
        {
            let sm = &sums[i];
            proof {
                assert(sv.take(i + 1).drop_last() =~= sv.take(i as int));
                assert(sv.take(i + 1).last() == sm@);
            }
            if sm.doubles.len() < 2 || sm.integers.len() < 6 {
                i += 1;
                continue;
            }
            let start_addr = #[verifier::truncate] (sm.integers[4] as u32);
            let end_addr = #[verifier::truncate] (sm.integers[5] as u32);
            let payload = match read_payload(&daf, sm.integers[3], start_addr, end_addr) {
                Ok(p) => p,
                Err(e) => {
                    proof {
                        lemma_segments_error_sticks(daf@, sv, i as int + 1);
                    }
                    return Err(e);
                },
            };
            let seg = SpkSegment {
                target: sm.integers[0],
                center: sm.integers[1],
                frame: sm.integers[2],
                data_type: sm.integers[3],
                start_et: sm.doubles[0],
                end_et: sm.doubles[1],
                start_addr,
                end_addr,
                name: sm.name.clone(),
                payload,
            };
            let ghost old_segments = segments@;
            segments.push(seg);
            proof {
                assert(segments_view(segments@) =~= segments_view(old_segments).push(seg@));
            }
            i += 1;
        }
        assert(sv.take(sums@.len() as int) =~= sv);
        Ok(SpkFile { daf, segments })
    }

    /// The segments, in file order.
    pub fn segments(&self) -> (r: &[SpkSegment])
        ensures
            segments_view(r@) == self@.segments,
    {
        self.segments.as_slice()
    }

    /// The DAF container the segments' data lives in.
    pub fn daf(&self) -> (r: &DafFile)
        ensures
            r@ == self@.bytes,
    {
        &self.daf
    }
}

/// Segment `seg` covers `et`: `start_et <= et <= end_et` as `f64`s.
pub open spec fn covers(seg: SpkSegmentView, et: u64) -> bool {
    double_le(seg.start_et, et) && double_le(et, seg.end_et)
}

/// Segment `seg` gives `target` relative to `center` at `et`.
pub open spec fn serves(seg: SpkSegmentView, target: i32, center: i32, et: u64) -> bool {
    seg.target == target && seg.center == center && covers(seg, et)
}

/// Segment `seg` is a step from `body` toward the barycenter at `et`.
pub open spec fn steps_from(seg: SpkSegmentView, body: i32, et: u64) -> bool {
    seg.target == body && covers(seg, et)
}

/// A step from `body` at `et` (straight to the barycenter, when `to_ssb`).
pub open spec fn step_ok(seg: SpkSegmentView, body: i32, et: u64, to_ssb: bool) -> bool {
    steps_from(seg, body, et) && (!to_ssb || seg.center == 0)
}

/// The first index at or after `j` of a step from `body` at `et`
/// (one whose center is the barycenter, when `to_ssb`).
pub open spec fn first_step(segs: Seq<SpkSegmentView>, body: i32, et: u64, to_ssb: bool, j: int) -> Option<
    int,
>
    decreases segs.len() - j,
{
    if j < 0 || j >= segs.len() {
        None
    } else if step_ok(segs[j], body, et, to_ssb) {
        Some(j)
    } else {
        first_step(segs, body, et, to_ssb, j + 1)
    }
}

/// The segment a step from `body` uses: the first step straight to the
/// barycenter, else the first step.
pub open spec fn chosen_step(segs: Seq<SpkSegmentView>, body: i32, et: u64) -> Option<int> {
    match first_step(segs, body, et, true, 0) {
        Some(k) => Some(k),
        None => first_step(segs, body, et, false, 0),
    }
}

/// The steps from `body` among the first `n` segments, in order.
pub open spec fn steps_upto(segs: Seq<SpkSegmentView>, body: i32, et: u64, n: int) -> Seq<usize>
    decreases n,
{
    if n <= 0 {
        Seq::empty()
    } else if steps_from(segs[n - 1], body, et) {
        steps_upto(segs, body, et, n - 1).push((n - 1) as usize)
    } else {
        steps_upto(segs, body, et, n - 1)
    }
}

/// The segments a step from `body` evaluates, in order: every step up
/// to the first one straight to the barycenter (all of them if none is).
pub open spec fn evaluated_steps(segs: Seq<SpkSegmentView>, body: i32, et: u64) -> Seq<usize> {
    match first_step(segs, body, et, true, 0) {
        Some(k) => steps_upto(segs, body, et, k + 1),
        None => steps_upto(segs, body, et, segs.len() as int),
    }
}

/// The first index at or after `j` of a segment that gives `target`
/// relative to `center` at `et`.
pub open spec fn first_serving(segs: Seq<SpkSegmentView>, target: i32, center: i32, et: u64, j: int) -> Option<
    int,
>
    decreases segs.len() - j,
{
    if j < 0 || j >= segs.len() {
        None
    } else if serves(segs[j], target, center, et) {
        Some(j)
    } else {
        first_serving(segs, target, center, et, j + 1)
    }
}

/// The single segment for the pair: the first that gives `target`
/// relative to `center`, else the first that gives `center` relative to
/// `target` (`true`: to be negated).
pub open spec fn direct_segment(segs: Seq<SpkSegmentView>, target: i32, center: i32, et: u64) -> Option<
    (usize, bool),
> {
    match first_serving(segs, target, center, et, 0) {
        Some(i) => Some((i as usize, false)),
        None => match first_serving(segs, center, target, et, 0) {
            Some(i) => Some((i as usize, true)),
            None => None,
        },
    }
}

proof fn lemma_first_serving(segs: Seq<SpkSegmentView>, target: i32, center: i32, et: u64, j: int, k: Option<int>)
    requires
        0 <= j <= segs.len(),
        match k {
            Some(k) => j <= k < segs.len() && serves(segs[k], target, center, et) && forall|m: int|
                j <= m < k ==> !serves(#[trigger] segs[m], target, center, et),
            None => forall|m: int| j <= m < segs.len() ==> !serves(#[trigger] segs[m], target, center, et),
        },
    ensures
        first_serving(segs, target, center, et, j) == k,
    decreases segs.len() - j,
{
    if j < segs.len() {
        if k != Some(j) {
            lemma_first_serving(segs, target, center, et, j + 1, k);
        }
    }
}

proof fn lemma_first_serving_push(segs: Seq<SpkSegmentView>, x: SpkSegmentView, target: i32, center: i32, et: u64, j: int)
    requires
        0 <= j,
        first_serving(segs, target, center, et, j) is Some,
    ensures
        first_serving(segs.push(x), target, center, et, j) == first_serving(segs, target, center, et, j),
    decreases segs.len() - j,
{
    if j < segs.len() {
        assert(segs.push(x)[j] == segs[j]);
        if !serves(segs[j], target, center, et) {
            lemma_first_serving_push(segs, x, target, center, et, j + 1);
        }
    }
}

/// First-loaded wins: appending a segment never changes which segment
/// serves a pair that some segment already served.
pub proof fn lemma_earlier_segment_wins(segs: Seq<SpkSegmentView>, x: SpkSegmentView, target: i32, center: i32, et: u64)
    requires
        first_serving(segs, target, center, et, 0) is Some,
    ensures
        direct_segment(segs.push(x), target, center, et) == direct_segment(segs, target, center, et),
{
    lemma_first_serving_push(segs, x, target, center, et, 0);
}

/// One step of a walk toward the barycenter.
#[derive(Debug, Clone)]
pub struct SsbStep {
    /// The segments evaluated, in order (an evaluation error stops the walk).
    pub evaluated: Vec<usize>,
    /// The segment whose state is added; its center is the next body.
    pub chosen: usize,
}

pub struct SsbStepView {
    pub evaluated: Seq<usize>,
    pub chosen: usize,
}

impl View for SsbStep {
    type V = SsbStepView;

    open spec fn view(&self) -> SsbStepView {
        SsbStepView { evaluated: self.evaluated@, chosen: self.chosen }
    }
}

/// The walk from `cur` toward the barycenter for `body`, for at most
/// `fuel` steps: the steps, and whether the barycenter was reached (a
/// walk that finds no step, returns to `body` or runs out of steps has
/// no coverage).
pub open spec fn ssb_walk(segs: Seq<SpkSegmentView>, body: i32, cur: i32, et: u64, fuel: nat) -> (
    Seq<SsbStepView>,
    bool,
)
    decreases fuel,
{
    if fuel == 0 {
        (Seq::empty(), false)
    } else {
        match chosen_step(segs, cur, et) {
            None => (Seq::empty(), false),
            Some(k) => {
                let step = SsbStepView { evaluated: evaluated_steps(segs, cur, et), chosen: k as usize };
                let next = segs[k].center;
                if next == 0 {
                    (seq![step], true)
                } else if next == body {
                    (seq![step], false)
                } else {
                    let rest = ssb_walk(segs, body, next, et, (fuel - 1) as nat);
                    (seq![step] + rest.0, rest.1)
                }
            },
        }
    }
}

/// NAIF body chains are shallow; a walk gives up after this many steps.
pub open spec fn max_walk() -> nat {
    32
}

/// The walk from `body` to the barycenter at `et`.
pub open spec fn walk_to_ssb(segs: Seq<SpkSegmentView>, body: i32, et: u64) -> (Seq<SsbStepView>, bool) {
    if body == 0 {
        (Seq::empty(), true)
    } else {
        ssb_walk(segs, body, body, et, max_walk())
    }
}

/// A walk toward the barycenter, as computed.
#[derive(Debug, Clone)]
pub struct SsbWalk {
    pub steps: Vec<SsbStep>,
    pub reached: bool,
}

pub open spec fn steps_view(v: Seq<SsbStep>) -> Seq<SsbStepView> {
    Seq::new(v.len(), |i: int| v[i]@)
}

/// How the state of `target` relative to `center` is obtained.
#[derive(Debug, Clone)]
pub enum StatePlan {
    /// The same body: the zero state.
    Zero,
    /// Evaluate this segment.
    Direct(usize),
    /// Evaluate this segment (of `center` relative to `target`) and negate.
    Reversed(usize),
    /// Sum each walk's chosen segments and subtract the center's sum from
    /// the target's.
    ViaSsb(SsbWalk, SsbWalk),
}

impl SpkFile {
    /// Find a single segment for the pair: the first that gives `target`
    /// relative to `center` at `et`; else the first that gives `center`
    /// relative to `target` (`true`: its state is to be negated).
    pub fn find_direct(&self, target: i32, center: i32, et: u64) -> (r: Option<(usize, bool)>)
        ensures
            r == direct_segment(self@.segments, target, center, et),
    {
        let ghost segs = self@.segments;
        let n = self.segments.len();
        let mut i: usize = 0;
        while i < n
            invariant
                n == segs.len(),
                segs == self@.segments,
                i <= n,
                forall|j: int| 0 <= j < i ==> !serves(#[trigger] segs[j], target, center, et),
            decreases n - i,
        {
            let seg = &self.segments[i];
            assert(segs[i as int] == seg@);
            if seg.target == target && seg.center == center && double_le_exec(seg.start_et, et)
                && double_le_exec(et, seg.end_et) {
                proof {
                    lemma_first_serving(segs, target, center, et, 0, Some(i as int));
                }
                return Some((i, false));
            }
            i += 1;
        }
        proof {
            lemma_first_serving(segs, target, center, et, 0, None);
        }
        let mut i: usize = 0;
        while i < n
            invariant
                n == segs.len(),
                segs == self@.segments,
                i <= n,
                first_serving(segs, target, center, et, 0) is None,
                forall|j: int| 0 <= j < i ==> !serves(#[trigger] segs[j], center, target, et),
            decreases n - i,
        {
            let seg = &self.segments[i];
            assert(segs[i as int] == seg@);
            if seg.target == center && seg.center == target && double_le_exec(seg.start_et, et)
                && double_le_exec(et, seg.end_et) {
                proof {
                    lemma_first_serving(segs, center, target, et, 0, Some(i as int));
                }
                return Some((i, true));
            }
            i += 1;
        }
        proof {
            lemma_first_serving(segs, center, target, et, 0, None);
        }
        None
    }
}

proof fn lemma_first_step_bounds(segs: Seq<SpkSegmentView>, body: i32, et: u64, to_ssb: bool, j: int)
    ensures
        first_step(segs, body, et, to_ssb, j) matches Some(k) ==> j <= k < segs.len() && step_ok(
            segs[k],
            body,
            et,
            to_ssb,
        ),
    decreases segs.len() - j,
{
    if 0 <= j < segs.len() && !step_ok(segs[j], body, et, to_ssb) {
        lemma_first_step_bounds(segs, body, et, to_ssb, j + 1);
    }
}

proof fn lemma_first_step(segs: Seq<SpkSegmentView>, body: i32, et: u64, to_ssb: bool, j: int, k: Option<int>)
    requires
        0 <= j <= segs.len(),
        match k {
            Some(k) => j <= k < segs.len() && step_ok(segs[k], body, et, to_ssb) && forall|m: int|
                j <= m < k ==> !step_ok(#[trigger] segs[m], body, et, to_ssb),
            None => forall|m: int| j <= m < segs.len() ==> !step_ok(#[trigger] segs[m], body, et, to_ssb),
        },
    ensures
        first_step(segs, body, et, to_ssb, j) == k,
    decreases segs.len() - j,
{
    if j < segs.len() {
        if k != Some(j) {
            lemma_first_step(segs, body, et, to_ssb, j + 1, k);
        }
    }
}

impl SpkFile {
    /// One step from `body` toward the barycenter at `et`: the segments
    /// evaluated and the one chosen (`None` when no segment of `body`
    /// covers `et`).
    pub fn ssb_step(&self, body: i32, et: u64) -> (r: Option<SsbStep>)
        ensures
            match chosen_step(self@.segments, body, et) {
                None => r is None,
                Some(k) => r matches Some(st) && st@ == (SsbStepView {
                    evaluated: evaluated_steps(self@.segments, body, et),
                    chosen: k as usize,
                }),
            },
    {
        let ghost segs = self@.segments;
        let n = self.segments.len();
        let mut evaluated: Vec<usize> = Vec::new();
        let mut preferred: Option<usize> = None;
        let mut i: usize = 0;
        while i < n
            invariant
                n == segs.len(),
                segs == self@.segments,
                i <= n,
                evaluated@ == steps_upto(segs, body, et, i as int),
                forall|j: int| 0 <= j < i ==> !step_ok(#[trigger] segs[j], body, et, true),
                match preferred {
                    None => forall|j: int| 0 <= j < i ==> !step_ok(#[trigger] segs[j], body, et, false),
                    Some(p) => p < i && step_ok(segs[p as int], body, et, false) && forall|j: int|
                        0 <= j < p ==> !step_ok(#[trigger] segs[j], body, et, false),
                },
            decreases n - i,
        {
            let seg = &self.segments[i];
            assert(segs[i as int] == seg@);
            if seg.target == body && double_le_exec(seg.start_et, et) && double_le_exec(et, seg.end_et) {
                evaluated.push(i);
                if seg.center == 0 {
                    proof {
                        lemma_first_step(segs, body, et, true, 0, Some(i as int));
                        assert(evaluated@ == steps_upto(segs, body, et, i + 1));
                    }
                    return Some(SsbStep { evaluated, chosen: i });
                }
                if preferred.is_none() {
                    preferred = Some(i);
                }
            }
            i += 1;
        }
        proof {
            lemma_first_step(segs, body, et, true, 0, None);
            match preferred {
                None => lemma_first_step(segs, body, et, false, 0, None),
                Some(p) => lemma_first_step(segs, body, et, false, 0, Some(p as int)),
            }
        }
        match preferred {
            None => None,
            Some(p) => Some(SsbStep { evaluated, chosen: p }),
        }
    }
}

impl SpkFile {
    /// The walk from `body` to the barycenter at `et`.
    pub fn walk_to_barycenter(&self, body: i32, et: u64) -> (r: SsbWalk)
        ensures
            (steps_view(r.steps@), r.reached) == walk_to_ssb(self@.segments, body, et),
    {
        let ghost segs = self@.segments;
        let mut steps: Vec<SsbStep> = Vec::new();
        if body == 0 {
            assert(steps_view(steps@) =~= Seq::<SsbStepView>::empty());
            return SsbWalk { steps, reached: true };
        }
        let n = self.segments.len();
        let mut cur = body;
        let mut left: u32 = 32;
        let ghost total = ssb_walk(segs, body, body, et, 32);
        assert(steps_view(steps@) + ssb_walk(segs, body, cur, et, left as nat).0 =~= total.0);
        while left > 0
            invariant
                segs == self@.segments,
                n == segs.len(),
                body != 0,
                total == ssb_walk(segs, body, body, et, 32),
                total.0 == steps_view(steps@) + ssb_walk(segs, body, cur, et, left as nat).0,
                total.1 == ssb_walk(segs, body, cur, et, left as nat).1,
            decreases left,
        {
            proof {
                lemma_first_step_bounds(segs, cur, et, true, 0);
                lemma_first_step_bounds(segs, cur, et, false, 0);
            }
            let step = match self.ssb_step(cur, et) {
                None => {
                    assert(chosen_step(segs, cur, et) is None);
                    assert(ssb_walk(segs, body, cur, et, left as nat).0 =~= Seq::<SsbStepView>::empty());
                    assert(steps_view(steps@) + Seq::<SsbStepView>::empty() =~= steps_view(steps@));
                    return SsbWalk { steps, reached: false };
                },
                Some(st) => st,
            };
            let next = self.segments[step.chosen].center;
            let ghost k = chosen_step(segs, cur, et)->0;
            let ghost old_steps = steps@;
            proof {
                assert(chosen_step(segs, cur, et) is Some);
                assert(0 <= k < segs.len());
                assert(segs.len() == self.segments@.len());
                assert(step@.chosen == k as usize);
                assert(step.chosen == k);
                assert(segs[k] == self.segments@[step.chosen as int]@);
            }
            steps.push(step);
            proof {
                assert(steps_view(steps@) =~= steps_view(old_steps).push(step@));
            }
            if next == 0 {
                assert(steps_view(old_steps) + seq![step@] =~= steps_view(steps@));
                return SsbWalk { steps, reached: true };
            }
            if next == body {
                assert(steps_view(old_steps) + seq![step@] =~= steps_view(steps@));
                return SsbWalk { steps, reached: false };
            }
            proof {
                let rest = ssb_walk(segs, body, next, et, (left - 1) as nat);
                assert(steps_view(old_steps) + (seq![step@] + rest.0) =~= steps_view(steps@) + rest.0);
            }
            cur = next;
            left = left - 1;
        }
        assert(steps_view(steps@) + Seq::<SsbStepView>::empty() =~= steps_view(steps@));
        SsbWalk { steps, reached: false }
    }

    /// How to obtain the state of `target` relative to `center` at `et`:
    /// zero for the same body; else a single segment for the pair (or its
    /// reverse); else the walks of both bodies to the barycenter.
    pub fn plan_state(&self, target: i32, center: i32, et: u64) -> (r: StatePlan)
        ensures
            target == center ==> r is Zero,
            target != center ==> match direct_segment(self@.segments, target, center, et) {
                Some((i, false)) => r == StatePlan::Direct(i),
                Some((i, true)) => r == StatePlan::Reversed(i),
                None => r matches StatePlan::ViaSsb(tw, cw) && (steps_view(tw.steps@), tw.reached)
                    == walk_to_ssb(self@.segments, target, et) && (steps_view(cw.steps@), cw.reached)
                    == walk_to_ssb(self@.segments, center, et),
            },
    {
        if target == center {
            return StatePlan::Zero;
        }
        match self.find_direct(target, center, et) {
            Some((i, false)) => StatePlan::Direct(i),
            Some((i, true)) => StatePlan::Reversed(i),
            None => StatePlan::ViaSsb(
                self.walk_to_barycenter(target, et),
                self.walk_to_barycenter(center, et),
            ),
        }
    }
}

/// The first index in `[lo, hi)` whose epoch exceeds `et`, as bisection
/// finds it (an epoch "exceeds" `et` when `epoch <= et` is false).
pub open spec fn bisect(e: Seq<u64>, et: u64, lo: int, hi: int) -> int
    decreases hi - lo,
{
    if lo >= hi {
        lo
    } else {
        let mid = (lo + hi) / 2;
        if double_le(e[mid], et) {
            bisect(e, et, mid + 1, hi)
        } else {
            bisect(e, et, lo, mid)
        }
    }
}

/// The window of `window` consecutive epochs (fewer if there are fewer)
/// around `et`: `(first index, count)`. It starts `(count - 1) / 2`
/// before the last epoch not after `et`, clamped to the epochs.
pub open spec fn window_of(e: Seq<u64>, window: nat, et: u64) -> (int, int) {
    let n = e.len() as int;
    let count = if window < n {
        window as int
    } else {
        n
    };
    let lo = bisect(e, et, 0, n);
    let left = if lo >= 1 {
        lo - 1
    } else {
        0
    };
    let half = (count - 1) / 2;
    let s0 = if left >= half {
        left - half
    } else {
        0
    };
    let start = if s0 < n - count {
        s0
    } else {
        n - count
    };
    (start, count)
}

/// The interpolation window lies inside the epochs, holds `window`
/// epochs (all of them when there are fewer), and contains the last epoch
/// not after `et`; when every epoch is after `et` it starts at the first.
pub proof fn lemma_window_contains_last_epoch(e: Seq<u64>, window: nat, et: u64)
    requires
        e.len() >= 1,
        window >= 1,
        le_is_prefix(e, et),
    ensures
        ({
            let (s, c) = window_of(e, window, et);
            &&& c == (if window < e.len() {
                window as int
            } else {
                e.len() as int
            })
            &&& 0 <= s
            &&& s + c <= e.len()
            &&& forall|l: int|
                0 <= l < e.len() && #[trigger] double_le(e[l], et) && (l + 1 == e.len() || !double_le(
                    e[l + 1],
                    et,
                )) ==> s <= l < s + c
            &&& !double_le(e[0], et) ==> s == 0
        }),
{
    let n = e.len() as int;
    lemma_bisect_boundary(e, et, 0, n);
    let lo = bisect(e, et, 0, n);
    let (s, c) = window_of(e, window, et);
    assert forall|l: int|
        0 <= l < e.len() && #[trigger] double_le(e[l], et) && (l + 1 == e.len() || !double_le(
            e[l + 1],
            et,
        )) implies s <= l < s + c by {
        assert(l < lo);
        if l + 1 < n {
            assert(!double_le(e[l + 1], et));
            assert(l + 1 >= lo);
        }
        assert(l == lo - 1);
    }
}

/// Whether `epoch <= et` holds of a prefix of the epochs only.
pub open spec fn le_is_prefix(e: Seq<u64>, et: u64) -> bool {
    forall|i: int, j: int|
        0 <= i < j < e.len() && #[trigger] double_le(e[j], et) ==> #[trigger] double_le(e[i], et)
}

/// Bisection finds the boundary of the epochs not after `et`, when those
/// form a prefix.
pub proof fn lemma_bisect_boundary(e: Seq<u64>, et: u64, lo: int, hi: int)
    requires
        0 <= lo <= hi <= e.len(),
        le_is_prefix(e, et),
        forall|i: int| 0 <= i < lo ==> #[trigger] double_le(e[i], et),
        forall|i: int| hi <= i < e.len() ==> !#[trigger] double_le(e[i], et),
    ensures
        lo <= bisect(e, et, lo, hi) <= hi,
        forall|i: int| 0 <= i < bisect(e, et, lo, hi) ==> #[trigger] double_le(e[i], et),
        forall|i: int| bisect(e, et, lo, hi) <= i < e.len() ==> !#[trigger] double_le(e[i], et),
    decreases hi - lo,
{
    if lo < hi {
        let mid = (lo + hi) / 2;
        if double_le(e[mid], et) {
            lemma_bisect_boundary(e, et, mid + 1, hi);
        } else {
            lemma_bisect_boundary(e, et, lo, mid);
        }
    }
}

/// Each epoch is `<` the next, as `f64`s.
pub open spec fn epochs_increasing(e: Seq<u64>) -> bool {
    forall|i: int| 0 <= i < e.len() - 1 ==> #[trigger] double_lt(e[i], e[i + 1])
}

proof fn lemma_increasing_keys(e: Seq<u64>, i: int, j: int)
    requires
        epochs_increasing(e),
        0 <= i < j < e.len(),
    ensures
        order_key(e[i]) < order_key(e[j]),
        double_lt(e[i], e[j]),
    decreases j - i,
{
    assert(double_lt(e[j - 1], e[j - 1 + 1]));
    if i < j - 1 {
        lemma_increasing_keys(e, i, j - 1);
    }
}

/// For strictly increasing epochs, those not after `et` form a prefix,
/// so bisection finds the first epoch after `et`.
pub proof fn lemma_increasing_epochs_prefix(e: Seq<u64>, et: u64)
    requires
        epochs_increasing(e),
    ensures
        le_is_prefix(e, et),
{
    assert forall|i: int, j: int|
        0 <= i < j < e.len() && #[trigger] double_le(e[j], et) implies #[trigger] double_le(e[i], et) by {
        lemma_increasing_keys(e, i, j);
    }
}

/// Pick the window of `window` epochs of a discrete-state segment used
/// to interpolate at `et`; the `n_states` epochs start at DAF address
/// `epochs_start`.
pub fn pick_window(daf: &DafFile, epochs_start: u32, n_states: usize, window: usize, et: u64) -> (r:
    Result<(usize, usize), SpkError>)
    requires
        n_states >= 1,
        epochs_start >= 1,
        epochs_start + n_states - 1 <= u32::MAX,
    ensures
        window == 0 ==> r == Err::<(usize, usize), SpkError>(SpkError::BadType2("window size 0")),
        window > 0 ==> match read_block(daf@, epochs_start, (epochs_start + n_states - 1) as u32) {
            Err(e) => r matches Err(x) && x == SpkError::Daf(e),
            Ok(ep) => r matches Ok((s, c)) && (s as int, c as int) == window_of(ep, window as nat, et),
        },
{
    if window == 0 {
        return Err(SpkError::BadType2("window size 0"));
    }
    let count = if window < n_states {
        window
    } else {
        n_states
    };
    let last = epochs_start + ((n_states - 1) as u32);
    let epochs = match daf.read_doubles(epochs_start, last) {
        Ok(v) => v,
        Err(e) => return Err(SpkError::Daf(e)),
    };
    let ghost ep = epochs@;
    let mut lo: usize = 0;
    let mut hi: usize = n_states;
    while lo < hi
        invariant
            ep == epochs@,
            ep.len() == n_states,
            lo <= hi <= n_states,
            bisect(ep, et, lo as int, hi as int) == bisect(ep, et, 0, n_states as int),
        decreases hi - lo,
    {
        let mid = lo + (hi - lo) / 2;
        assert(mid == (lo + hi) / 2);
        if double_le_exec(epochs[mid], et) {
            lo = mid + 1;
        } else {
            hi = mid;
        }
    }
    let left_idx = if lo >= 1 {
        lo - 1
    } else {
        0
    };
    let half = (count - 1) / 2;
    let start = if left_idx >= half {
        left_idx - half
    } else {
        0
    };
    let start = if start < n_states - count {
        start
    } else {
        n_states - count
    };
    Ok((start, count))
}

/// Record `clamp(raw, 0, n - 1)` of a Chebyshev segment.
pub open spec fn clamp_record(raw: int, n: int) -> int {
    if raw < 0 {
        0
    } else if raw > n - 1 {
        n - 1
    } else {
        raw
    }
}

/// The records of a Chebyshev segment lie inside `u32` addresses.
pub open spec fn chebyshev_records_fit(m: ChebyshevMeta) -> bool {
    &&& m.n_records >= 1
    &&& m.n_records <= isize::MAX
    &&& m.rsize >= 1
    &&& m.start_addr + m.n_records * m.rsize <= u32::MAX
}

/// Whether [`chebyshev_record_span`] may be called for this segment.
pub fn chebyshev_records_fit_exec(m: &ChebyshevMeta) -> (r: bool)
    ensures
        r == chebyshev_records_fit(*m),
{
    if m.n_records < 1 || m.n_records as u128 > isize::MAX as u128 || m.rsize < 1 {
        return false;
    }
    if m.n_records > 0xFFFF_FFFF || m.rsize > 0xFFFF_FFFF {
        proof {
            assert(m.n_records * m.rsize > u32::MAX) by (nonlinear_arith)
                requires
                    m.n_records >= 1,
                    m.rsize >= 1,
                    m.n_records > 0xFFFF_FFFF || m.rsize > 0xFFFF_FFFF,
            ;
        }
        return false;
    }
    proof {
        assert(m.n_records * m.rsize <= 0xFFFF_FFFF * 0xFFFF_FFFF) by (nonlinear_arith)
            requires
                m.n_records <= 0xFFFF_FFFF,
                m.rsize <= 0xFFFF_FFFF,
        ;
    }
    (m.start_addr as u128) + (m.n_records as u128) * (m.rsize as u128) <= u32::MAX as u128
}

/// The DAF address range of the record that evaluation at an epoch uses,
/// given `raw = floor((et - INIT) / INTLEN)`: the record index clamped
/// to the segment's records.
pub fn chebyshev_record_span(m: &ChebyshevMeta, raw: isize) -> (r: (u32, u32))
    requires
        chebyshev_records_fit(*m),
    ensures
        r.0 == m.start_addr + clamp_record(raw as int, m.n_records as int) * m.rsize,
        r.1 == r.0 + m.rsize - 1,
        m.start_addr <= r.0,
        r.1 <= m.start_addr + m.n_records * m.rsize - 1,
        0 <= raw < m.n_records ==> r.0 == m.start_addr + raw * m.rsize,
        raw < 0 ==> r.0 == m.start_addr,
        raw >= m.n_records ==> r.0 == m.start_addr + (m.n_records - 1) * m.rsize,
{
    let top = m.n_records as isize - 1;
    let idx: usize = if raw < 0 {
        0
    } else if raw > top {
        top as usize
    } else {
        raw as usize
    };
    proof {
        assert(idx * m.rsize <= (m.n_records - 1) * m.rsize) by (nonlinear_arith)
            requires
                idx <= m.n_records - 1,
        ;
        assert((m.n_records - 1) * m.rsize + m.rsize == m.n_records * m.rsize) by (nonlinear_arith);
        assert(idx * m.rsize >= 0) by (nonlinear_arith)
            requires
                idx >= 0,
                m.rsize >= 0,
        ;
    }
    let off = idx * m.rsize;
    let start = m.start_addr + off as u32;
    (start, start + m.rsize as u32 - 1)
}

/// Once the summaries up to `k` give an error, so do all of them.
proof fn lemma_segments_error_sticks(s: Seq<u8>, sums: Seq<SummaryView>, k: int)
    requires
        0 <= k <= sums.len(),
        spk_segments_of(s, sums.take(k)) is Err,
    ensures
        spk_segments_of(s, sums) == spk_segments_of(s, sums.take(k)),
    decreases sums.len() - k,
{
    if k < sums.len() {
        assert(sums.take(k + 1).drop_last() =~= sums.take(k));
        lemma_segments_error_sticks(s, sums, k + 1);
    } else {
        assert(sums.take(k) =~= sums);
    }
}

} // verus!
