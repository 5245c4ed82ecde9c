//! What the SPK reader makes of the files the SPK writer produces.

use vstd::prelude::*;

use crate::chars::unicode_whitespace;
use crate::count_double::{count_bits, lemma_count_bits_roundtrip};
use crate::daf::{address_range_ok, daf_summaries, le_u32_at, doubles_in, strip_nuls, strip_spaces, SummaryView};
use crate::spk::{epochs_increasing, le_is_prefix, lemma_increasing_epochs_prefix, spk_payload, spk_segment_of, spk_segments, spk_segments_of, SpkError, SpkPayload, SpkSegmentView};
use crate::spk_roundtrip::{
    data_reads_back, lemma_data_doubles, lemma_written_file_reads_back, spaces, summary_reads_back,
};
use crate::spk_writer::{
    record_doubles, records_have_width, strictly_increasing, type9_problem, Type3RecordView,
    id_len, lemma_payload_len, records_doubles, segment_end, segment_meta,
    segment_payload, segment_payload_len, segment_start, segment_valid, spk_file_bytes,
    type3_problem, type3_rsize, type9_dir_len, writer_fits,
    writer_valid, SegmentView, SpkWriterView,
};
use crate::trailer::{as_usize, back, chebyshev_check, discrete_check, read_block, ChebyshevMeta, DiscreteMeta};

verus! {

/// The payload layout the reader finds for a written segment whose data
/// starts at address `start`.
pub open spec fn written_payload(s: SegmentView, start: int) -> SpkPayload {
    match s {
        SegmentView::Type3(t) => SpkPayload::Type3(
            ChebyshevMeta {
                init: t.init,
                intlen: t.intlen,
                rsize: type3_rsize(t) as usize,
                n_records: t.records.len() as usize,
                n_coef: t.records[0].x.len() as usize,
                start_addr: start as u32,
            },
        ),
        SegmentView::Type9(t) => SpkPayload::Type9(
            DiscreteMeta {
                window_or_degree: t.degree as usize,
                n_states: t.epochs.len() as usize,
                states_start: start as u32,
                epochs_start: (start + 6 * t.epochs.len()) as u32,
            },
        ),
    }
}

/// The segment the reader finds for written segment `i`.
pub open spec fn written_segment(segs: Seq<SegmentView>, i: int) -> SpkSegmentView {
    let m = segment_meta(segs[i]);
    SpkSegmentView {
        target: m.target,
        center: m.center,
        frame: m.frame_id,
        data_type: m.data_type,
        start_et: m.start_et,
        end_et: m.end_et,
        start_addr: segment_start(segs, i) as u32,
        end_addr: segment_end(segs, i) as u32,
        name: strip_spaces(strip_nuls(m.name + spaces((40 - id_len(m.name)) as nat))),
        payload: written_payload(segs[i], segment_start(segs, i)),
    }
}

/// A run of doubles inside a larger run.
proof fn lemma_doubles_window(s: Seq<u8>, a: int, b: int, c: int, d: int)
    requires
        a <= c <= d <= b,
    ensures
        doubles_in(s, c, d) == doubles_in(s, a, b).subrange(c - a, d - a + 1),
{
    assert(doubles_in(s, c, d) =~= doubles_in(s, a, b).subrange(c - a, d - a + 1));
}

/// A written segment's addresses: inside `[385, u32::MAX]`, and its data
/// at least as long as its shape says.
proof fn lemma_segment_addresses(w: SpkWriterView, i: int)
    requires
        writer_valid(w),
        writer_fits(w),
        0 <= i < w.segments.len(),
    ensures
        385 <= segment_start(w.segments, i) <= segment_end(w.segments, i) <= u32::MAX,
        segment_payload(w.segments[i]).len() == segment_payload_len(w.segments[i]),
        segment_end(w.segments, i) == segment_start(w.segments, i) + segment_payload_len(
            w.segments[i],
        ) - 1,
        segment_payload_len(w.segments[i]) <= u32::MAX,
{
    let segs = w.segments;
    lemma_data_doubles(segs, i);
    assert(segment_valid(segs[i]));
    lemma_payload_len(segs[i]);
    assert(segment_payload_len(segs[i]) >= 1) by {
        match segs[i] {
            SegmentView::Type3(t) => {},
            SegmentView::Type9(t) => {},
        }
    }
}

proof fn lemma_u32_i32_u32(x: u32)
    ensures
        (x as i32) as u32 == x,
{
    assert((x as i32) as u32 == x) by (bit_vector);
}

/// The segment the reader builds from written summary `i`.
#[verifier::spinoff_prover]
#[verifier::rlimit(40)]
proof fn lemma_segment_of(w: SpkWriterView, sm: SummaryView, i: int)
    requires
        writer_valid(w),
        w.segments.len() <= 25,
        writer_fits(w),
        0 <= i < w.segments.len(),
        summary_reads_back(sm, w.segments, i),
        data_reads_back(spk_file_bytes(w), w.segments, i),
    ensures
        spk_segment_of(spk_file_bytes(w), sm) == Some(
            Ok::<SpkSegmentView, SpkError>(written_segment(w.segments, i)),
        ),
{
    let segs = w.segments;
    let b = spk_file_bytes(w);
    let s = segs[i];
    let start = segment_start(segs, i);
    let end = segment_end(segs, i);
    lemma_segment_addresses(w, i);
    lemma_u32_i32_u32(start as u32);
    lemma_u32_i32_u32(end as u32);
    assert(sm.integers[4] as u32 == start as u32);
    assert(sm.integers[5] as u32 == end as u32);
    let p = segment_payload(s);
    let len = p.len() as int;
    assert(segment_valid(s));
    vstd::arithmetic::power2::lemma2_to64();
    vstd::arithmetic::power2::lemma2_to64_rest();
    match s {
        SegmentView::Type3(t) => {
            let n_coef = t.records[0].x.len();
            let rsize = type3_rsize(t);
            let nrec = t.records.len();
            assert(type3_problem(t) is None);
            assert(len == nrec * rsize + 4);
            assert(rsize <= nrec * rsize && nrec <= nrec * rsize) by (nonlinear_arith)
                requires
                    nrec >= 1,
                    rsize >= 1,
            ;
            assert(back(end as u32, 3) == end - 3);
            lemma_doubles_window(b, start, end, end - 3, end);
            assert(address_range_ok(b, (end - 3) as u32, end as u32));
            let tr = doubles_in(b, end - 3, end);
            assert(tr == p.subrange(len - 4, len));
            assert(p == records_doubles(t.records) + seq![
                t.init,
                t.intlen,
                count_bits(rsize),
                count_bits(nrec),
            ]);
            assert(tr =~= seq![t.init, t.intlen, count_bits(rsize), count_bits(nrec)]);
            assert(read_block(b, back(end as u32, 3), end as u32) == Ok::<Seq<u64>, crate::daf::DafError>(tr));
            lemma_count_bits_roundtrip(rsize, usize::MAX as int);
            lemma_count_bits_roundtrip(nrec, usize::MAX as int);
            assert(as_usize(tr[2]) == rsize);
            assert(as_usize(tr[3]) == nrec);
            assert((rsize - 2) % 6 == 0 && (rsize - 2) / 6 == n_coef) by (nonlinear_arith)
                requires
                    rsize == 2 + 6 * n_coef,
            ;
            assert(chebyshev_check(
                tr,
                start as u32,
                6,
                "RSIZE not 2 + 6N",
                "degree<0 or INTLEN<=0",
                "degree<0 or INTLEN<=0",
            ) == Ok::<ChebyshevMeta, &'static str>(
                ChebyshevMeta {
                    init: t.init,
                    intlen: t.intlen,
                    rsize: rsize as usize,
                    n_records: nrec as usize,
                    n_coef: n_coef as usize,
                    start_addr: start as u32,
                },
            ));
            assert(spk_payload(b, 3, start as u32, end as u32) == Ok::<SpkPayload, SpkError>(
                written_payload(s, start),
            ));
        },
        SegmentView::Type9(t) => {
            let n = t.epochs.len();
            assert(len == 7 * n + type9_dir_len(n) + 2);
            assert(back(end as u32, 1) == end - 1);
            lemma_doubles_window(b, start, end, end - 1, end);
            let tr = doubles_in(b, end - 1, end);
            assert(tr == p.subrange(len - 2, len));
            assert(tr =~= seq![count_bits(t.degree as nat), count_bits(n)]);
            assert(read_block(b, back(end as u32, 1), end as u32) == Ok::<Seq<u64>, crate::daf::DafError>(tr));
            lemma_count_bits_roundtrip(n, usize::MAX as int);
            lemma_count_bits_roundtrip(t.degree as nat, usize::MAX as int);
            assert(as_usize(tr[1]) == n);
            assert(as_usize(tr[0]) == t.degree);
            assert(discrete_check(tr, start as u32, end as u32) == Ok::<DiscreteMeta, &'static str>(
                DiscreteMeta {
                    window_or_degree: t.degree as usize,
                    n_states: n as usize,
                    states_start: start as u32,
                    epochs_start: (start + 6 * n) as u32,
                },
            ));
            assert(spk_payload(b, 9, start as u32, end as u32) == Ok::<SpkPayload, SpkError>(
                written_payload(s, start),
            ));
        },
    }
}

/// Record `k` of a run of records with `n` coefficients per channel.
proof fn lemma_records_doubles_at(rs: Seq<Type3RecordView>, n: int, k: int)
    requires
        n >= 0,
        records_have_width(rs, n),
        0 <= k < rs.len(),
    ensures
        records_doubles(rs).len() == rs.len() * (2 + 6 * n),
        records_doubles(rs).subrange(k * (2 + 6 * n), (k + 1) * (2 + 6 * n)) == record_doubles(rs[k]),
    decreases rs.len(),
{
    crate::spk_writer::lemma_records_doubles_len(rs, n);
    let r = 2 + 6 * n;
    assert(records_have_width(rs.drop_last(), n)) by {
        assert forall|j: int| 0 <= j < rs.drop_last().len() implies #[trigger] rs.drop_last()[j].x.len() == n
            && rs.drop_last()[j].y.len() == n && rs.drop_last()[j].z.len() == n
            && rs.drop_last()[j].vx.len() == n && rs.drop_last()[j].vy.len() == n
            && rs.drop_last()[j].vz.len() == n by {
            assert(rs.drop_last()[j] == rs[j]);
            assert(rs[j].x.len() == n);
        }
    }
    crate::spk_writer::lemma_records_doubles_len(rs.drop_last(), n);
    assert((k + 1) * r == k * r + r) by (nonlinear_arith);
    assert((rs.len() - 1) * r + r == rs.len() * r) by (nonlinear_arith);
    if k < rs.len() - 1 {
        lemma_records_doubles_at(rs.drop_last(), n, k);
        assert(rs.drop_last()[k] == rs[k]);
        assert((k + 1) * r <= (rs.len() - 1) * r) by (nonlinear_arith)
            requires
                k + 1 <= rs.len() - 1,
                r >= 0,
        ;
        assert(records_doubles(rs).subrange(k * r, (k + 1) * r) =~= records_doubles(
            rs.drop_last(),
        ).subrange(k * r, (k + 1) * r));
    } else {
        assert(rs[k].x.len() == n);
        assert(records_doubles(rs).subrange(k * r, (k + 1) * r) =~= record_doubles(rs.last()));
    }
}

/// Where the reader looks for a written segment's data, it finds what was
/// written: record `k` of a Type 3 segment lies at
/// `start + k * RSIZE ..= start + (k + 1) * RSIZE - 1`; the states and
/// the epochs of a Type 9 segment lie at `start ..= start + 6N - 1` and
/// `start + 6N ..= start + 7N - 1`, and the epochs are strictly
/// increasing, so bisecting them for an epoch finds the epochs not after
/// it.
pub proof fn lemma_written_data_reads_back(w: SpkWriterView, i: int, k: int, et: u64)
    requires
        writer_valid(w),
        w.segments.len() <= 25,
        writer_fits(w),
        0 <= i < w.segments.len(),
    ensures
        ({
            let b = spk_file_bytes(w);
            let start = segment_start(w.segments, i);
            match w.segments[i] {
                SegmentView::Type3(t) => 0 <= k < t.records.len() ==> {
                    let lo = start + k * type3_rsize(t);
                    let hi = lo + type3_rsize(t) - 1;
                    &&& address_range_ok(b, lo as u32, hi as u32)
                    &&& doubles_in(b, lo, hi) == record_doubles(t.records[k])
                },
                SegmentView::Type9(t) => {
                    let n = t.epochs.len() as int;
                    &&& address_range_ok(b, start as u32, (start + 6 * n - 1) as u32)
                    &&& doubles_in(b, start, start + 6 * n - 1) == t.states
                    &&& address_range_ok(b, (start + 6 * n) as u32, (start + 7 * n - 1) as u32)
                    &&& doubles_in(b, start + 6 * n, start + 7 * n - 1) == t.epochs
                    &&& epochs_increasing(t.epochs)
                    &&& le_is_prefix(t.epochs, et)
                },
            }
        }),
{
    let segs = w.segments;
    let b = spk_file_bytes(w);
    lemma_written_file_reads_back(w);
    assert(data_reads_back(b, segs, i));
    lemma_segment_addresses(w, i);
    let start = segment_start(segs, i);
    let end = segment_end(segs, i);
    let p = segment_payload(segs[i]);
    assert(segment_valid(segs[i]));
    match segs[i] {
        SegmentView::Type3(t) => {
            if 0 <= k < t.records.len() {
                let n = t.records[0].x.len() as int;
                let r = type3_rsize(t) as int;
                assert(type3_problem(t) is None);
                lemma_records_doubles_at(t.records, n, k);
                assert((k + 1) * r <= t.records.len() * r) by (nonlinear_arith)
                    requires
                        k + 1 <= t.records.len(),
                        r >= 0,
                ;
                assert((k + 1) * r == k * r + r) by (nonlinear_arith);
                assert(k * r >= 0) by (nonlinear_arith)
                    requires
                        k >= 0,
                        r >= 0,
                ;
                let lo = start + k * r;
                let hi = lo + r - 1;
                lemma_doubles_window(b, start, end, lo, hi);
                assert(p.subrange(k * r, k * r + r) =~= records_doubles(t.records).subrange(k * r, (k + 1) * r));
            }
        },
        SegmentView::Type9(t) => {
            let n = t.epochs.len() as int;
            assert(type9_problem(t) is None);
            lemma_doubles_window(b, start, end, start, start + 6 * n - 1);
            lemma_doubles_window(b, start, end, start + 6 * n, start + 7 * n - 1);
            assert(p.subrange(0, 6 * n) =~= t.states);
            assert(p.subrange(6 * n, 7 * n) =~= t.epochs);
            assert(strictly_increasing(t.epochs));
            assert(epochs_increasing(t.epochs));
            lemma_increasing_epochs_prefix(t.epochs, et);
        },
    }
}

/// The segments of the first `k` written summaries.
proof fn lemma_prefix(w: SpkWriterView, k: int)
    requires
        writer_valid(w),
        w.segments.len() <= 25,
        writer_fits(w),
        0 <= k <= w.segments.len(),
        daf_summaries(spk_file_bytes(w)) is Ok,
        daf_summaries(spk_file_bytes(w))->Ok_0.len() == w.segments.len(),
        forall|i: int|
            0 <= i < w.segments.len() ==> #[trigger] summary_reads_back(
                daf_summaries(spk_file_bytes(w))->Ok_0[i],
                w.segments,
                i,
            ),
        forall|i: int| 0 <= i < w.segments.len() ==> #[trigger] data_reads_back(spk_file_bytes(w), w.segments, i),
    ensures
        spk_segments_of(spk_file_bytes(w), daf_summaries(spk_file_bytes(w))->Ok_0.take(k)) == Ok::<
            Seq<SpkSegmentView>,
            SpkError,
        >(Seq::new(k as nat, |j: int| written_segment(w.segments, j))),
    decreases k,
{
    let segs = w.segments;
    let b = spk_file_bytes(w);
    let sums = daf_summaries(b)->Ok_0;
    if k == 0 {
        assert(sums.take(0) =~= Seq::<SummaryView>::empty());
        assert(Seq::new(0, |j: int| written_segment(segs, j)) =~= Seq::<SpkSegmentView>::empty());
    } else {
        lemma_prefix(w, k - 1);
        let i = k - 1;
        assert(summary_reads_back(sums[i], segs, i));
        assert(data_reads_back(b, segs, i));
        lemma_segment_of(w, sums[i], i);
        assert(sums.take(k).drop_last() =~= sums.take(i));
        assert(sums.take(k).last() == sums[i]);
        assert(Seq::new(k as nat, |j: int| written_segment(segs, j)) =~= Seq::new(
            i as nat,
            |j: int| written_segment(segs, j),
        ).push(written_segment(segs, i)));
    }
}

/// What the SPK writer writes, the SPK reader reads back: one segment per
/// written segment, in order, with its target, center, frame, data type,
/// coverage, data addresses and name, and a payload layout carrying the
/// written trailer (Type 3: INIT, INTLEN, RSIZE, the record count and
/// coefficients per channel; Type 9: degree, epoch count, where the
/// states and epochs start).
pub proof fn lemma_written_spk_reads_back(w: SpkWriterView)
    requires
        writer_valid(w),
        w.segments.len() <= 25,
        writer_fits(w),
    ensures
        spk_segments(spk_file_bytes(w)) is Ok,
        spk_segments(spk_file_bytes(w))->Ok_0.len() == w.segments.len(),
        forall|i: int|
            0 <= i < w.segments.len() ==> #[trigger] spk_segments(spk_file_bytes(w))->Ok_0[i]
                == written_segment(w.segments, i),
{
    let segs = w.segments;
    let b = spk_file_bytes(w);
    lemma_written_file_reads_back(w);
    let sums = daf_summaries(b)->Ok_0;
    lemma_prefix(w, segs.len() as int);
    assert(sums.take(segs.len() as int) =~= sums);
}

/// Each written segment's data fills exactly the DAF addresses its
/// summary names, and holds the segment's payload: `end - start + 1` is
/// `7 N + (N - 1) / 100 + 2` for a Type 9 segment of `N` epochs (states,
/// epochs, every hundredth epoch but the last, `[DEGREE, N]`) and
/// `records * RSIZE + 4` for a Type 3 segment.
pub proof fn lemma_written_segment_extent(w: SpkWriterView, i: int)
    requires
        writer_valid(w),
        w.segments.len() <= 25,
        writer_fits(w),
        0 <= i < w.segments.len(),
    ensures
        ({
            let b = spk_file_bytes(w);
            let sm = daf_summaries(b)->Ok_0[i];
            let start = sm.integers[4] as u32 as int;
            let end = sm.integers[5] as u32 as int;
            &&& daf_summaries(b) is Ok
            &&& daf_summaries(b)->Ok_0.len() == w.segments.len()
            &&& end - start + 1 == segment_payload_len(w.segments[i])
            &&& doubles_in(b, start, end) == segment_payload(w.segments[i])
            &&& (w.segments[i] matches SegmentView::Type9(t) ==> end - start + 1 == 7 * t.epochs.len()
                + (t.epochs.len() - 1) / 100 + 2)
        }),
{
    let segs = w.segments;
    let b = spk_file_bytes(w);
    lemma_written_file_reads_back(w);
    let sm = daf_summaries(b)->Ok_0[i];
    assert(summary_reads_back(sm, segs, i));
    assert(data_reads_back(b, segs, i));
    lemma_segment_addresses(w, i);
    lemma_u32_i32_u32(segment_start(segs, i) as u32);
    lemma_u32_i32_u32(segment_end(segs, i) as u32);
    assert(sm.integers[4] as u32 == segment_start(segs, i) as u32);
    assert(sm.integers[5] as u32 == segment_end(segs, i) as u32);
}

/// The start and end addresses a written summary names are those of the
/// segment's data.
proof fn lemma_summary_addresses(w: SpkWriterView, i: int)
    requires
        writer_valid(w),
        w.segments.len() <= 25,
        writer_fits(w),
        0 <= i < w.segments.len(),
    ensures
        daf_summaries(spk_file_bytes(w)) is Ok,
        daf_summaries(spk_file_bytes(w))->Ok_0.len() == w.segments.len(),
        daf_summaries(spk_file_bytes(w))->Ok_0[i].integers.len() == 6,
        daf_summaries(spk_file_bytes(w))->Ok_0[i].integers[4] as u32 == segment_start(w.segments, i),
        daf_summaries(spk_file_bytes(w))->Ok_0[i].integers[5] as u32 == segment_end(w.segments, i),
{
    let segs = w.segments;
    let b = spk_file_bytes(w);
    lemma_written_file_reads_back(w);
    let sm = daf_summaries(b)->Ok_0[i];
    assert(summary_reads_back(sm, segs, i));
    lemma_segment_addresses(w, i);
    lemma_u32_i32_u32(segment_start(segs, i) as u32);
    lemma_u32_i32_u32(segment_end(segs, i) as u32);
}

/// How a written Type 3 segment lies in the file, from the addresses its
/// summary names. With `n` coefficients per channel each record takes
/// `2 + 6 n` doubles, record `k` starting `k (2 + 6 n)` doubles after the
/// segment's start address: first the record's midpoint, then its
/// radius, then the `n` coefficients of x, of y, of z, of vx, of vy and
/// of vz. The segment ends with `INIT`, `INTLEN`, `RSIZE = 2 + 6 n` and the
/// record count.
pub proof fn lemma_written_type3_layout(w: SpkWriterView, i: int, k: int)
    requires
        writer_valid(w),
        w.segments.len() <= 25,
        writer_fits(w),
        0 <= i < w.segments.len(),
        w.segments[i] is Type3,
        0 <= k < w.segments[i]->Type3_0.records.len(),
    ensures
        ({
            let b = spk_file_bytes(w);
            let t = w.segments[i]->Type3_0;
            let r = t.records[k];
            let n = t.records[0].x.len() as int;
            let sm = daf_summaries(b)->Ok_0[i];
            let start = sm.integers[4] as u32 as int;
            let end = sm.integers[5] as u32 as int;
            let lo = start + k * (2 + 6 * n);
            let d = doubles_in(b, lo, lo + 1 + 6 * n);
            let tail = doubles_in(b, end - 3, end);
            &&& daf_summaries(b) is Ok
            &&& daf_summaries(b)->Ok_0.len() == w.segments.len()
            &&& n >= 1
            &&& end - start + 1 == t.records.len() * (2 + 6 * n) + 4
            &&& d.len() == 2 + 6 * n
            &&& d[0] == r.mid
            &&& d[1] == r.radius
            &&& r.x.len() == n && r.y.len() == n && r.z.len() == n
            &&& r.vx.len() == n && r.vy.len() == n && r.vz.len() == n
            &&& forall|j: int|
                0 <= j < n ==> {
                    &&& #[trigger] d[2 + j] == r.x[j]
                    &&& d[2 + n + j] == r.y[j]
                    &&& d[2 + 2 * n + j] == r.z[j]
                    &&& d[2 + 3 * n + j] == r.vx[j]
                    &&& d[2 + 4 * n + j] == r.vy[j]
                    &&& d[2 + 5 * n + j] == r.vz[j]
                }
            &&& tail == seq![t.init, t.intlen, count_bits((2 + 6 * n) as nat), count_bits(t.records.len())]
        }),
{
    let segs = w.segments;
    let b = spk_file_bytes(w);
    let t = segs[i]->Type3_0;
    let r = t.records[k];
    let n = t.records[0].x.len() as int;
    lemma_summary_addresses(w, i);
    lemma_segment_addresses(w, i);
    lemma_written_data_reads_back(w, i, k, 0);
    assert(segment_valid(segs[i]));
    assert(type3_problem(t) is None);
    assert(records_have_width(t.records, n));
    assert(r.x.len() == n);
    let rs = 2 + 6 * n;
    let start = segment_start(segs, i);
    let end = segment_end(segs, i);
    let lo = start + k * rs;
    let d = doubles_in(b, lo, lo + 1 + 6 * n);
    assert(d == record_doubles(r));
    assert forall|j: int| 0 <= j < n implies {
        &&& #[trigger] d[2 + j] == r.x[j]
        &&& d[2 + n + j] == r.y[j]
        &&& d[2 + 2 * n + j] == r.z[j]
        &&& d[2 + 3 * n + j] == r.vx[j]
        &&& d[2 + 4 * n + j] == r.vy[j]
        &&& d[2 + 5 * n + j] == r.vz[j]
    } by {
        assert(record_doubles(r) == seq![r.mid, r.radius] + r.x + r.y + r.z + r.vx + r.vy + r.vz);
    }
    // The trailer.
    assert(data_reads_back(b, segs, i)) by {
        lemma_written_file_reads_back(w);
    }
    let p = segment_payload(segs[i]);
    let len = p.len() as int;
    lemma_payload_len(segs[i]);
    assert(len == t.records.len() * rs + 4);
    assert(rs <= t.records.len() * rs) by (nonlinear_arith)
        requires
            t.records.len() >= 1,
            rs >= 1,
    ;
    lemma_doubles_window(b, start, end, end - 3, end);
    assert(doubles_in(b, end - 3, end) == p.subrange(len - 4, len));
    assert(p == records_doubles(t.records) + seq![
        t.init,
        t.intlen,
        count_bits(type3_rsize(t)),
        count_bits(t.records.len()),
    ]);
    crate::spk_writer::lemma_records_doubles_len(t.records, n);
    assert(p.subrange(len - 4, len) =~= seq![
        t.init,
        t.intlen,
        count_bits((2 + 6 * n) as nat),
        count_bits(t.records.len()),
    ]);
}

/// How a written Type 9 segment lies in the file, from the addresses its
/// summary names: the `6 N` state components in order, the `N` epochs,
/// then `(N - 1) / 100` directory epochs, the `m`-th of which is epoch
/// `100 (m + 1) - 1`, and last the degree and `N`.
pub proof fn lemma_written_type9_layout(w: SpkWriterView, i: int)
    requires
        writer_valid(w),
        w.segments.len() <= 25,
        writer_fits(w),
        0 <= i < w.segments.len(),
        w.segments[i] is Type9,
    ensures
        ({
            let b = spk_file_bytes(w);
            let t = w.segments[i]->Type9_0;
            let nn = t.epochs.len() as int;
            let sm = daf_summaries(b)->Ok_0[i];
            let start = sm.integers[4] as u32 as int;
            let end = sm.integers[5] as u32 as int;
            let dir = doubles_in(b, start + 7 * nn, start + 7 * nn + (nn - 1) / 100 - 1);
            &&& daf_summaries(b) is Ok
            &&& daf_summaries(b)->Ok_0.len() == w.segments.len()
            &&& nn >= 1
            &&& t.states.len() == 6 * nn
            &&& end - start + 1 == 7 * nn + (nn - 1) / 100 + 2
            &&& doubles_in(b, start, start + 6 * nn - 1) == t.states
            &&& doubles_in(b, start + 6 * nn, start + 7 * nn - 1) == t.epochs
            &&& dir.len() == (nn - 1) / 100
            &&& forall|m: int| 0 <= m < (nn - 1) / 100 ==> #[trigger] dir[m] == t.epochs[100 * (m + 1) - 1]
            &&& doubles_in(b, end - 1, end) == seq![count_bits(t.degree as nat), count_bits(nn as nat)]
        }),
{
    let segs = w.segments;
    let b = spk_file_bytes(w);
    let t = segs[i]->Type9_0;
    let nn = t.epochs.len() as int;
    lemma_summary_addresses(w, i);
    lemma_segment_addresses(w, i);
    lemma_written_data_reads_back(w, i, 0, 0);
    assert(segment_valid(segs[i]));
    assert(type9_problem(t) is None);
    assert(data_reads_back(b, segs, i)) by {
        lemma_written_file_reads_back(w);
    }
    let start = segment_start(segs, i);
    let end = segment_end(segs, i);
    let p = segment_payload(segs[i]);
    let len = p.len() as int;
    let dl = (nn - 1) / 100;
    assert(len == 7 * nn + dl + 2);
    lemma_doubles_window(b, start, end, end - 1, end);
    assert(p.subrange(len - 2, len) =~= seq![count_bits(t.degree as nat), count_bits(nn as nat)]);
    if dl > 0 {
        lemma_doubles_window(b, start, end, start + 7 * nn, start + 7 * nn + dl - 1);
        assert forall|m: int| 0 <= m < dl implies #[trigger] doubles_in(
            b,
            start + 7 * nn,
            start + 7 * nn + dl - 1,
        )[m] == t.epochs[100 * (m + 1) - 1] by {
            assert(p[7 * nn + m] == t.epochs[(m + 1) * 100 - 1]);
            assert((m + 1) * 100 == 100 * (m + 1));
        }
    }
}

/// What the summary of written segment `i` holds, by the segment's own
/// fields: its coverage `[start_et, end_et]`, its target, center and
/// frame, data type 3 or 9 by its kind, and its identifier as name (an
/// identifier not ending in a NUL or in whitespace reads back unchanged).
pub proof fn lemma_written_summary_fields(w: SpkWriterView, i: int)
    requires
        writer_valid(w),
        w.segments.len() <= 25,
        writer_fits(w),
        0 <= i < w.segments.len(),
    ensures
        ({
            let sm = daf_summaries(spk_file_bytes(w))->Ok_0[i];
            &&& daf_summaries(spk_file_bytes(w)) is Ok
            &&& daf_summaries(spk_file_bytes(w))->Ok_0.len() == w.segments.len()
            &&& sm.integers.len() == 6
            &&& match w.segments[i] {
                SegmentView::Type3(t) => {
                    &&& sm.doubles == seq![t.start_et, t.end_et]
                    &&& sm.integers[0] == t.target && sm.integers[1] == t.center
                    &&& sm.integers[2] == t.frame_id && sm.integers[3] == 3
                    &&& (t.segment_id.len() == 0 || (t.segment_id.last() != '\0'
                        && !unicode_whitespace(t.segment_id.last()))) ==> sm.name == t.segment_id
                },
                SegmentView::Type9(t) => {
                    &&& sm.doubles == seq![t.start_et, t.end_et]
                    &&& sm.integers[0] == t.target && sm.integers[1] == t.center
                    &&& sm.integers[2] == t.frame_id && sm.integers[3] == 9
                    &&& (t.segment_id.len() == 0 || (t.segment_id.last() != '\0'
                        && !unicode_whitespace(t.segment_id.last()))) ==> sm.name == t.segment_id
                },
            }
        }),
{
    let segs = w.segments;
    let b = spk_file_bytes(w);
    lemma_written_file_reads_back(w);
    let sm = daf_summaries(b)->Ok_0[i];
    assert(summary_reads_back(sm, segs, i));
    let id = segment_meta(segs[i]).name;
    let a = (40 - id_len(id)) as nat;
    if id.len() == 0 || (id.last() != '\0' && !unicode_whitespace(id.last())) {
        crate::daf::lemma_strip_nuls_pad(id + spaces(a), 0);
        assert(id + spaces(a) + crate::daf::nul_chars(0) =~= id + spaces(a));
        if a > 0 {
            assert((id + spaces(a)).last() == ' ');
        } else {
            assert(id + spaces(a) =~= id);
        }
        assert(spaces(a) =~= crate::daf::space_chars(a));
        crate::daf::lemma_strip_spaces_pad(id, a);
    }
}

/// The segments' data lie back to back from DAF address 385, in the order
/// the segments were added: the first starts at 385, each next one right
/// after the end of the one before, and the file record's first free
/// address is one past the end of the last (385 with no segments).
pub proof fn lemma_written_segments_contiguous(w: SpkWriterView)
    requires
        writer_valid(w),
        w.segments.len() <= 25,
        writer_fits(w),
    ensures
        ({
            let b = spk_file_bytes(w);
            let sums = daf_summaries(b)->Ok_0;
            let n = w.segments.len() as int;
            &&& daf_summaries(b) is Ok
            &&& sums.len() == n
            &&& n == 0 ==> le_u32_at(b, 84) == 385
            &&& n > 0 ==> sums[0].integers[4] as u32 == 385
            &&& n > 0 ==> le_u32_at(b, 84) == sums[n - 1].integers[5] as u32 + 1
            &&& forall|i: int|
                0 <= i < n - 1 ==> #[trigger] sums[i + 1].integers[4] as u32 == sums[i].integers[5] as u32 + 1
        }),
{
    let segs = w.segments;
    let b = spk_file_bytes(w);
    let n = segs.len() as int;
    lemma_written_file_reads_back(w);
    let sums = daf_summaries(b)->Ok_0;
    if n > 0 {
        lemma_summary_addresses(w, 0);
        assert(segs.take(0) =~= Seq::<SegmentView>::empty());
        assert(crate::spk_writer::payload_total(Seq::<SegmentView>::empty()) == 0);
        lemma_summary_addresses(w, n - 1);
        crate::spk_roundtrip::lemma_data_doubles(segs, n - 1);
        assert(segs.take(n) =~= segs);
    } else {
        assert(crate::spk_writer::payload_total(segs) == 0);
    }
    assert forall|i: int| 0 <= i < n - 1 implies #[trigger] sums[i + 1].integers[4] as u32
        == sums[i].integers[5] as u32 + 1 by {
        lemma_summary_addresses(w, i);
        lemma_summary_addresses(w, i + 1);
        crate::spk_roundtrip::lemma_data_doubles(segs, i);
        lemma_segment_addresses(w, i + 1);
    }
}

} // verus!
