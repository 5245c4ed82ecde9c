//! What the DAF reader makes of the files the SPK writer produces.

use vstd::prelude::*;
use vstd::bytes::{
    lemma_auto_spec_u32_to_from_le_bytes, lemma_auto_spec_u64_to_from_le_bytes,
};

use vstd::utf8::{encode_utf8, encode_utf8_decode_utf8, encode_utf8_valid_utf8};

use crate::count_double::{count_bits, lemma_count_bits_roundtrip};
use crate::daf::{
    address_range_ok, summary_doubles, record_start, chain_limit, chain_summaries, daf_header_ok, daf_prefix, daf_summaries,
    doubles_in, le_i32_at, strip_nuls, strip_spaces, le_u32_at, le_u64_at, lemma_chain_fuel, ltl_ieee, record_summaries,
    slot_name, summary_at, SummaryView,
};
use crate::double_word::double_to_uint;
use crate::spk_writer::{
    data_record_count, data_records, data_start, file_record, fill, name_record, spk_file_bytes,
    spk_idword, summary_record, writer_fits, locifn_field, writer_valid, SegmentMeta, SpkWriterView,
    data_doubles, doubles_bytes, id_fits, id_len, le64, name_slot, name_slots, payload_total,
    segment_end, segment_meta, segment_payload, segment_start, segment_valid, summary_slot,
    summary_slots, SegmentView,
};

verus! {

/// The bytes of a run of doubles: eight per double, double `k` at `8k`.
pub proof fn lemma_doubles_bytes_index(d: Seq<u64>, k: int)
    requires
        0 <= k < d.len(),
    ensures
        doubles_bytes(d).len() == 8 * d.len(),
        doubles_bytes(d).subrange(8 * k, 8 * k + 8) == le64(d[k]),
    decreases d.len(),
{
    lemma_auto_spec_u32_to_from_le_bytes();
    lemma_auto_spec_u64_to_from_le_bytes();
    lemma_doubles_bytes_len(d);
    if k < d.len() - 1 {
        lemma_doubles_bytes_index(d.drop_last(), k);
        assert(doubles_bytes(d).subrange(8 * k, 8 * k + 8) =~= doubles_bytes(d.drop_last()).subrange(
            8 * k,
            8 * k + 8,
        ));
    } else {
        lemma_doubles_bytes_len(d.drop_last());
        assert(doubles_bytes(d).subrange(8 * k, 8 * k + 8) =~= le64(d.last()));
    }
}

pub proof fn lemma_doubles_bytes_len(d: Seq<u64>)
    ensures
        doubles_bytes(d).len() == 8 * d.len(),
    decreases d.len(),
{
    lemma_auto_spec_u32_to_from_le_bytes();
    lemma_auto_spec_u64_to_from_le_bytes();
    if d.len() > 0 {
        lemma_doubles_bytes_len(d.drop_last());
    }
}

/// The summary slots: forty bytes per segment, segment `i`'s at `40 i`.
pub proof fn lemma_summary_slots(segs: Seq<SegmentView>, i: int)
    requires
        0 <= i < segs.len(),
    ensures
        summary_slots(segs).len() == 40 * segs.len(),
        summary_slots(segs).subrange(40 * i, 40 * i + 40) == summary_slot(
            segment_meta(segs[i]),
            segment_start(segs, i),
            segment_end(segs, i),
        ),
    decreases segs.len(),
{
    lemma_auto_spec_u32_to_from_le_bytes();
    lemma_auto_spec_u64_to_from_le_bytes();
    lemma_summary_slots_len(segs);
    let last = segs.len() - 1;
    if i < last {
        lemma_summary_slots(segs.drop_last(), i);
        assert(segs.drop_last().take(i) =~= segs.take(i));
        assert(segs.drop_last()[i] == segs[i]);
        assert(summary_slots(segs).subrange(40 * i, 40 * i + 40) =~= summary_slots(
            segs.drop_last(),
        ).subrange(40 * i, 40 * i + 40));
    } else {
        lemma_summary_slots_len(segs.drop_last());
        assert(summary_slots(segs).subrange(40 * i, 40 * i + 40) =~= summary_slot(
            segment_meta(segs[i]),
            segment_start(segs, i),
            segment_end(segs, i),
        ));
    }
}

pub proof fn lemma_summary_slots_len(segs: Seq<SegmentView>)
    ensures
        summary_slots(segs).len() == 40 * segs.len(),
    decreases segs.len(),
{
    lemma_auto_spec_u32_to_from_le_bytes();
    lemma_auto_spec_u64_to_from_le_bytes();
    if segs.len() > 0 {
        lemma_summary_slots_len(segs.drop_last());
    }
}

/// Every segment id of `segs` fits its name slot.
pub open spec fn ids_fit(segs: Seq<SegmentView>) -> bool {
    forall|i: int| 0 <= i < segs.len() ==> id_fits(#[trigger] segment_meta(segs[i]).name)
}

pub proof fn lemma_name_slots_len(segs: Seq<SegmentView>)
    requires
        ids_fit(segs),
    ensures
        name_slots(segs).len() == 40 * segs.len(),
    decreases segs.len(),
{
    if segs.len() > 0 {
        assert(ids_fit(segs.drop_last())) by {
            assert forall|i: int| 0 <= i < segs.drop_last().len() implies id_fits(
                #[trigger] segment_meta(segs.drop_last()[i]).name,
            ) by {
                assert(segs.drop_last()[i] == segs[i]);
            }
        }
        lemma_name_slots_len(segs.drop_last());
        assert(id_fits(segment_meta(segs[segs.len() - 1]).name));
    }
}

/// The name slots: forty bytes per segment, segment `i`'s at `40 i`.
pub proof fn lemma_name_slots(segs: Seq<SegmentView>, i: int)
    requires
        0 <= i < segs.len(),
        ids_fit(segs),
    ensures
        name_slots(segs).len() == 40 * segs.len(),
        name_slots(segs).subrange(40 * i, 40 * i + 40) == name_slot(segment_meta(segs[i]).name),
    decreases segs.len(),
{
    lemma_name_slots_len(segs);
    assert(ids_fit(segs.drop_last())) by {
        assert forall|j: int| 0 <= j < segs.drop_last().len() implies id_fits(
            #[trigger] segment_meta(segs.drop_last()[j]).name,
        ) by {
            assert(segs.drop_last()[j] == segs[j]);
        }
    }
    lemma_name_slots_len(segs.drop_last());
    let last = segs.len() - 1;
    if i < last {
        lemma_name_slots(segs.drop_last(), i);
        assert(segs.drop_last()[i] == segs[i]);
        assert(name_slots(segs).subrange(40 * i, 40 * i + 40) =~= name_slots(
            segs.drop_last(),
        ).subrange(40 * i, 40 * i + 40));
    } else {
        assert(id_fits(segment_meta(segs[i]).name));
        assert(name_slots(segs).subrange(40 * i, 40 * i + 40) =~= name_slot(
            segment_meta(segs[i]).name,
        ));
    }
}

/// The data doubles: segment `i`'s data occupies
/// `[payload_total(take(i)), payload_total(take(i + 1)))`.
pub proof fn lemma_data_doubles(segs: Seq<SegmentView>, i: int)
    requires
        0 <= i < segs.len(),
    ensures
        data_doubles(segs).len() == payload_total(segs),
        payload_total(segs.take(i + 1)) == payload_total(segs.take(i)) + segment_payload(
            segs[i],
        ).len(),
        payload_total(segs.take(i + 1)) <= payload_total(segs),
        data_doubles(segs).subrange(
            payload_total(segs.take(i)) as int,
            payload_total(segs.take(i + 1)) as int,
        ) == segment_payload(segs[i]),
    decreases segs.len(),
{
    lemma_data_doubles_len(segs);
    assert(segs.take(i + 1).drop_last() =~= segs.take(i));
    assert(segs.take(i + 1).last() == segs[i]);
    crate::spk_writer::lemma_payload_total_mono(segs, i + 1);
    let last = segs.len() - 1;
    if i < last {
        lemma_data_doubles(segs.drop_last(), i);
        assert(segs.drop_last().take(i) =~= segs.take(i));
        assert(segs.drop_last().take(i + 1) =~= segs.take(i + 1));
        assert(segs.drop_last()[i] == segs[i]);
        lemma_data_doubles_len(segs.drop_last());
        assert(data_doubles(segs).subrange(
            payload_total(segs.take(i)) as int,
            payload_total(segs.take(i + 1)) as int,
        ) =~= data_doubles(segs.drop_last()).subrange(
            payload_total(segs.take(i)) as int,
            payload_total(segs.take(i + 1)) as int,
        ));
    } else {
        assert(segs.take(i) =~= segs.drop_last());
        assert(segs.take(i + 1) =~= segs);
        lemma_data_doubles_len(segs.drop_last());
        assert(data_doubles(segs).subrange(
            payload_total(segs.take(i)) as int,
            payload_total(segs.take(i + 1)) as int,
        ) =~= segment_payload(segs[i]));
    }
}

pub proof fn lemma_data_doubles_len(segs: Seq<SegmentView>)
    ensures
        data_doubles(segs).len() == payload_total(segs),
    decreases segs.len(),
{
    if segs.len() > 0 {
        lemma_data_doubles_len(segs.drop_last());
    }
}

/// The file record carries the header fields the DAF reader checks.
pub proof fn lemma_file_record(idword: Seq<u8>, locifn: Seq<u8>, free: u32)
    requires
        idword == spk_idword(),
        locifn.len() == 60,
    ensures
        file_record(idword, locifn, free).len() == 1024,
        file_record(idword, locifn, free).subrange(0, 4) == daf_prefix(),
        file_record(idword, locifn, free).subrange(0, 8) == spk_idword(),
        file_record(idword, locifn, free).subrange(88, 96) == ltl_ieee(),
        le_u32_at(file_record(idword, locifn, free), 8) == 2,
        le_u32_at(file_record(idword, locifn, free), 12) == 6,
        le_u32_at(file_record(idword, locifn, free), 76) == 2,
        le_u32_at(file_record(idword, locifn, free), 80) == 2,
        le_u32_at(file_record(idword, locifn, free), 84) == free,
        file_record(idword, locifn, free).subrange(16, 76) == locifn,
{
    lemma_auto_spec_u32_to_from_le_bytes();
    let r = file_record(idword, locifn, free);
    assert(r.subrange(0, 4) =~= daf_prefix());
    assert(r.subrange(0, 8) =~= spk_idword());
    assert(r.subrange(88, 96) =~= ltl_ieee());
    assert(r.subrange(8, 12) =~= vstd::bytes::spec_u32_to_le_bytes(2));
    assert(r.subrange(12, 16) =~= vstd::bytes::spec_u32_to_le_bytes(6));
    assert(r.subrange(76, 80) =~= vstd::bytes::spec_u32_to_le_bytes(2));
    assert(r.subrange(80, 84) =~= vstd::bytes::spec_u32_to_le_bytes(2));
    assert(r.subrange(84, 88) =~= vstd::bytes::spec_u32_to_le_bytes(free));
    assert(r.subrange(16, 76) =~= locifn);
}

/// The summary record: `NEXT` is `0.0`, `NSUM` counts the segments, and
/// segment `i`'s slot sits at byte `24 + 40 i`.
pub proof fn lemma_summary_record(segs: Seq<SegmentView>, i: int)
    requires
        segs.len() <= 25,
        0 <= i < segs.len(),
    ensures
        summary_record(segs).len() == 1024,
        le_u64_at(summary_record(segs), 0) == 0,
        le_u64_at(summary_record(segs), 16) == count_bits(segs.len()),
        summary_record(segs).subrange(24 + 40 * i, 64 + 40 * i) == summary_slot(
            segment_meta(segs[i]),
            segment_start(segs, i),
            segment_end(segs, i),
        ),
{
    lemma_auto_spec_u64_to_from_le_bytes();
    lemma_summary_slots(segs, i);
    let r = summary_record(segs);
    assert(r.subrange(0, 8) =~= le64(0));
    assert(r.subrange(16, 24) =~= le64(count_bits(segs.len())));
    assert(r.subrange(24 + 40 * i, 64 + 40 * i) =~= summary_slots(segs).subrange(40 * i, 40 * i + 40));
}

/// The name record: segment `i`'s name slot sits at byte `40 i`.
pub proof fn lemma_name_record(segs: Seq<SegmentView>, i: int)
    requires
        segs.len() <= 25,
        ids_fit(segs),
        0 <= i < segs.len(),
    ensures
        name_record(segs).len() == 1024,
        name_record(segs).subrange(40 * i, 40 * i + 40) == name_slot(segment_meta(segs[i]).name),
{
    lemma_name_slots(segs, i);
    assert(name_record(segs).subrange(40 * i, 40 * i + 40) =~= name_slots(segs).subrange(
        40 * i,
        40 * i + 40,
    ));
}

/// The data records: data double `k` sits at byte `8 k`.
pub proof fn lemma_data_records(segs: Seq<SegmentView>, k: int)
    requires
        0 <= k < payload_total(segs),
    ensures
        data_records(segs).len() == 1024 * data_record_count(payload_total(segs)),
        le_u64_at(data_records(segs), 8 * k) == data_doubles(segs)[k],
{
    lemma_auto_spec_u64_to_from_le_bytes();
    lemma_data_doubles_len(segs);
    lemma_doubles_bytes_index(data_doubles(segs), k);
    let total = payload_total(segs);
    assert(data_record_count(total) * 128 >= total) by (nonlinear_arith)
        requires
            data_record_count(total) == (total + 127) / 128,
    ;
    assert(data_records(segs).subrange(8 * k, 8 * k + 8) =~= doubles_bytes(data_doubles(segs)).subrange(
        8 * k,
        8 * k + 8,
    ));
}

pub proof fn lemma_data_records_len(segs: Seq<SegmentView>)
    ensures
        data_records(segs).len() == 1024 * data_record_count(payload_total(segs)),
{
    lemma_data_doubles_len(segs);
    lemma_doubles_bytes_len(data_doubles(segs));
    let total = payload_total(segs);
    assert(data_record_count(total) * 128 >= total) by (nonlinear_arith)
        requires
            data_record_count(total) == (total + 127) / 128,
    ;
}

/// The fields of a summary slot, read back.
pub proof fn lemma_slot_fields(m: SegmentMeta, start: int, end: int)
    ensures
        summary_slot(m, start, end).len() == 40,
        le_u64_at(summary_slot(m, start, end), 0) == m.start_et,
        le_u64_at(summary_slot(m, start, end), 8) == m.end_et,
        le_i32_at(summary_slot(m, start, end), 16) == m.target,
        le_i32_at(summary_slot(m, start, end), 20) == m.center,
        le_i32_at(summary_slot(m, start, end), 24) == m.frame_id,
        le_i32_at(summary_slot(m, start, end), 28) == m.data_type,
        le_i32_at(summary_slot(m, start, end), 32) == start as u32 as i32,
        le_i32_at(summary_slot(m, start, end), 36) == end as u32 as i32,
{
    lemma_auto_spec_u32_to_from_le_bytes();
    lemma_auto_spec_u64_to_from_le_bytes();
    let sl = summary_slot(m, start, end);
    assert(sl.subrange(0, 8) =~= le64(m.start_et));
    assert(sl.subrange(8, 16) =~= le64(m.end_et));
    assert(sl.subrange(16, 20) =~= vstd::bytes::spec_u32_to_le_bytes(m.target as u32));
    assert(sl.subrange(20, 24) =~= vstd::bytes::spec_u32_to_le_bytes(m.center as u32));
    assert(sl.subrange(24, 28) =~= vstd::bytes::spec_u32_to_le_bytes(m.frame_id as u32));
    assert(sl.subrange(28, 32) =~= vstd::bytes::spec_u32_to_le_bytes(m.data_type as u32));
    assert(sl.subrange(32, 36) =~= vstd::bytes::spec_u32_to_le_bytes(start as u32));
    assert(sl.subrange(36, 40) =~= vstd::bytes::spec_u32_to_le_bytes(end as u32));
    let t = m.target;
    let c = m.center;
    let f = m.frame_id;
    let d = m.data_type;
    assert((t as u32) as i32 == t) by (bit_vector);
    assert((c as u32) as i32 == c) by (bit_vector);
    assert((f as u32) as i32 == f) by (bit_vector);
    assert((d as u32) as i32 == d) by (bit_vector);
}

/// How a summary read back from the file relates to segment `i`.
pub open spec fn summary_reads_back(s: SummaryView, segs: Seq<SegmentView>, i: int) -> bool {
    let m = segment_meta(segs[i]);
    &&& s.doubles == seq![m.start_et, m.end_et]
    &&& s.integers == seq![
        m.target,
        m.center,
        m.frame_id,
        m.data_type,
        segment_start(segs, i) as u32 as i32,
        segment_end(segs, i) as u32 as i32,
    ]
    &&& s.name == strip_spaces(strip_nuls(m.name + spaces((40 - id_len(m.name)) as nat)))
}

/// Segment `i`'s data lies in the file at its DAF addresses.
pub open spec fn data_reads_back(b: Seq<u8>, segs: Seq<SegmentView>, i: int) -> bool {
    &&& address_range_ok(b, segment_start(segs, i) as u32, segment_end(segs, i) as u32)
    &&& doubles_in(b, segment_start(segs, i), segment_end(segs, i)) == segment_payload(segs[i])
}

proof fn lemma_ids_fit(w: SpkWriterView)
    requires
        writer_valid(w),
    ensures
        ids_fit(w.segments),
{
    assert forall|i: int| 0 <= i < w.segments.len() implies id_fits(
        #[trigger] segment_meta(w.segments[i]).name,
    ) by {
        assert(segment_valid(w.segments[i]));
    }
}

/// The four parts of the file, and their lengths.
proof fn lemma_file_parts(w: SpkWriterView)
    requires
        writer_valid(w),
        w.segments.len() <= 25,
        writer_fits(w),
    ensures
        ({
            let b = spk_file_bytes(w);
            let segs = w.segments;
            let total = payload_total(segs);
            &&& b.len() == 1024 * (3 + data_record_count(total))
            &&& b.len() < 0xFFFF_FFFF * 1024
            &&& b.subrange(0, 1024) == file_record(w.idword, w.locifn, (data_start() + total) as u32)
            &&& b.subrange(1024, 2048) == summary_record(segs)
            &&& b.subrange(2048, 3072) == name_record(segs)
            &&& b.subrange(3072, b.len() as int) == data_records(segs)
        }),
{
    let segs = w.segments;
    let total = payload_total(segs);
    let r1 = file_record(w.idword, w.locifn, (data_start() + total) as u32);
    let r2 = summary_record(segs);
    let r3 = name_record(segs);
    let d = data_records(segs);
    lemma_file_record(w.idword, w.locifn, (data_start() + total) as u32);
    lemma_auto_spec_u64_to_from_le_bytes();
    lemma_summary_slots_len(segs);
    lemma_ids_fit(w);
    lemma_name_slots_len(segs);
    lemma_data_records_len(segs);
    assert(r2.len() == 1024);
    assert(r3.len() == 1024);
    let b = spk_file_bytes(w);
    assert(b == r1 + r2 + r3 + d) by {
        reveal(spk_file_bytes);
    }
    assert(b.subrange(0, 1024) =~= r1);
    assert(b.subrange(1024, 2048) =~= r2);
    assert(b.subrange(2048, 3072) =~= r3);
    assert(b.subrange(3072, b.len() as int) =~= d);
}

/// Segment `i`'s data lies inside the file at its addresses.
pub proof fn lemma_segment_data_reads_back(w: SpkWriterView, i: int)
    requires
        writer_valid(w),
        w.segments.len() <= 25,
        writer_fits(w),
        0 <= i < w.segments.len(),
    ensures
        data_reads_back(spk_file_bytes(w), w.segments, i),
{
    let segs = w.segments;
    let b = spk_file_bytes(w);
    let total = payload_total(segs);
    lemma_file_parts(w);
    lemma_data_doubles(segs, i);
    assert(segment_valid(segs[i]));
    crate::spk_writer::lemma_payload_len(segs[i]);
    let p = segment_payload(segs[i]);
    let pre = payload_total(segs.take(i));
    assert(p.len() >= 1);
    let d = data_records(segs);
    assert(data_record_count(total) * 128 >= total) by (nonlinear_arith)
        requires
            data_record_count(total) == (total + 127) / 128,
    ;
    assert forall|k: int| 0 <= k < p.len() implies #[trigger] le_u64_at(
        b,
        (segment_start(segs, i) - 1 + k) * 8,
    ) == p[k] by {
        let j = pre + k;
        lemma_data_records(segs, j);
        assert((segment_start(segs, i) - 1 + k) * 8 == 3072 + 8 * j);
        assert(b.subrange(3072 + 8 * j, 3072 + 8 * j + 8) =~= d.subrange(8 * j, 8 * j + 8));
        assert(data_doubles(segs)[j] == p[k]);
    }
    assert(doubles_in(b, segment_start(segs, i), segment_end(segs, i)) =~= p);
}

pub proof fn lemma_encode_utf8_concat(a: Seq<char>, b: Seq<char>)
    ensures
        encode_utf8(a + b) == encode_utf8(a) + encode_utf8(b),
    decreases a.len(),
{
    if a.len() == 0 {
        assert(a + b =~= b);
        assert(encode_utf8(a) + encode_utf8(b) =~= encode_utf8(b));
    } else {
        lemma_encode_utf8_concat(a.drop_first(), b);
        assert((a + b).drop_first() =~= a.drop_first() + b);
        assert((a + b)[0] == a[0]);
        assert(encode_utf8(a) + encode_utf8(b) =~= vstd::utf8::encode_scalar(a[0] as u32) + (
        encode_utf8(a.drop_first()) + encode_utf8(b)));
    }
}

/// `k` space characters.
pub open spec fn spaces(k: nat) -> Seq<char> {
    Seq::new(k, |i: int| ' ')
}

pub proof fn lemma_encode_spaces(k: nat)
    ensures
        encode_utf8(spaces(k)) == fill(k, 32),
    decreases k,
{
    if k > 0 {
        lemma_encode_spaces((k - 1) as nat);
        assert(spaces(k).drop_first() =~= spaces((k - 1) as nat));
        assert(spaces(k)[0] == ' ');
        assert((' ' as u32) == 32);
        assert(vstd::utf8::encode_scalar(32) == seq![32u8]) by {
            assert((32u32 & 0x7F) as u8 == 32u8) by (bit_vector);
        }
        assert(fill(k, 32) =~= seq![32u8] + fill((k - 1) as nat, 32));
    }
}

/// The text of a written name slot: the id followed by spaces, without
/// trailing NULs and whitespace.
pub proof fn lemma_name_slot_text(id: Seq<char>)
    requires
        id_fits(id),
    ensures
        slot_name(name_slot(id)) == strip_spaces(strip_nuls(id + spaces((40 - id_len(id)) as nat))),
{
    let k = (40 - id_len(id)) as nat;
    lemma_encode_spaces(k);
    lemma_encode_utf8_concat(id, spaces(k));
    assert(name_slot(id) == encode_utf8(id + spaces(k)));
    encode_utf8_valid_utf8(id + spaces(k));
    encode_utf8_decode_utf8(id + spaces(k));
}

/// The summary read from summary record 2 (ND = 2, NI = 6) of any file
/// whose slot `i` holds `summary_slot(m, start, end)` and whose name slot
/// `i` holds `ns`.
proof fn lemma_summary_at_fields(b: Seq<u8>, i: int, m: SegmentMeta, start: int, end: int, ns: Seq<u8>)
    requires
        0 <= i < 25,
        b.len() >= 3072,
        b.subrange(1048 + 40 * i, 1088 + 40 * i) == summary_slot(m, start, end),
        b.subrange(2048 + 40 * i, 2088 + 40 * i) == ns,
    ensures
        summary_at(b, 2, i, 2, 6).doubles == seq![m.start_et, m.end_et],
        summary_at(b, 2, i, 2, 6).integers == seq![
            m.target,
            m.center,
            m.frame_id,
            m.data_type,
            start as u32 as i32,
            end as u32 as i32,
        ],
        summary_at(b, 2, i, 2, 6).name == slot_name(ns),
{
    let sl = summary_slot(m, start, end);
    lemma_slot_fields(m, start, end);
    let base = 1048 + 40 * i;
    assert forall|k: int| 0 <= k < 2 implies #[trigger] le_u64_at(b, base + 8 * k) == le_u64_at(sl, 8 * k) by {
        assert(b.subrange(base + 8 * k, base + 8 * k + 8) =~= sl.subrange(8 * k, 8 * k + 8));
    }
    assert forall|k: int| 0 <= k < 6 implies #[trigger] le_i32_at(b, base + 16 + 4 * k) == le_i32_at(sl, 16 + 4 * k) by {
        assert(b.subrange(base + 16 + 4 * k, base + 20 + 4 * k) =~= sl.subrange(16 + 4 * k, 20 + 4 * k));
    }
    let sv = summary_at(b, 2, i, 2, 6);
    assert(summary_doubles(2, 6) == 5);
    assert(record_start(2) == 1024);
    assert(record_start(3) == 2048);
    let ss8 = summary_doubles(2, 6) * 8;
    assert(ss8 == 40);
    assert(i * ss8 == i * 40);
    assert(record_start(2) + 24 + i * ss8 == base);
    assert(sv.doubles.len() == 2);
    assert(sv.doubles[0] == le_u64_at(b, base));
    assert(sv.doubles[1] == le_u64_at(b, base + 8));
    assert(sv.integers.len() == 6);
    assert(sv.integers[2] == le_i32_at(b, base + 16 + 8));
    assert(le_u64_at(b, base + 8 * 0) == le_u64_at(sl, (8 * 0) as int));
    assert(le_u64_at(b, base + 8 * 1) == le_u64_at(sl, (8 * 1) as int));
    assert(sv.doubles =~= seq![m.start_et, m.end_et]);
    assert(le_i32_at(b, base + 16 + 4 * 0) == le_i32_at(sl, (16 + 4 * 0) as int));
    assert(le_i32_at(b, base + 16 + 4 * 1) == le_i32_at(sl, (16 + 4 * 1) as int));
    assert(le_i32_at(b, base + 16 + 4 * 2) == le_i32_at(sl, (16 + 4 * 2) as int));
    assert(le_i32_at(b, base + 16 + 4 * 3) == le_i32_at(sl, (16 + 4 * 3) as int));
    assert(le_i32_at(b, base + 16 + 4 * 4) == le_i32_at(sl, (16 + 4 * 4) as int));
    assert(le_i32_at(b, base + 16 + 4 * 5) == le_i32_at(sl, (16 + 4 * 5) as int));
    assert(sv.integers =~= seq![
        m.target,
        m.center,
        m.frame_id,
        m.data_type,
        start as u32 as i32,
        end as u32 as i32,
    ]);
}

/// Summary `i` of the file's summary record reads back segment `i`.
pub proof fn lemma_summary_at_reads_back(w: SpkWriterView, i: int)
    requires
        writer_valid(w),
        w.segments.len() <= 25,
        writer_fits(w),
        0 <= i < w.segments.len(),
    ensures
        summary_reads_back(summary_at(spk_file_bytes(w), 2, i, 2, 6), w.segments, i),
{
    let segs = w.segments;
    let b = spk_file_bytes(w);
    lemma_file_parts(w);
    lemma_summary_record(segs, i);
    lemma_ids_fit(w);
    lemma_name_record(segs, i);
    let m = segment_meta(segs[i]);
    let sl = summary_slot(m, segment_start(segs, i), segment_end(segs, i));
    assert(b.subrange(1048 + 40 * i, 1088 + 40 * i) =~= summary_record(segs).subrange(
        24 + 40 * i,
        64 + 40 * i,
    ));
    assert(b.subrange(2048 + 40 * i, 2088 + 40 * i) =~= name_record(segs).subrange(40 * i, 40 * i + 40));
    lemma_summary_at_fields(
        b,
        i,
        m,
        segment_start(segs, i),
        segment_end(segs, i),
        name_slot(m.name),
    );
    assert(id_fits(m.name));
    lemma_name_slot_text(m.name);
}

/// The file record of the written file, read back.
proof fn lemma_written_header(w: SpkWriterView)
    requires
        writer_valid(w),
        w.segments.len() <= 25,
        writer_fits(w),
    ensures
        ({
            let b = spk_file_bytes(w);
            &&& daf_header_ok(b)
            &&& b.subrange(0, 8) == spk_idword()
            &&& le_u32_at(b, 8) == 2
            &&& le_u32_at(b, 12) == 6
            &&& le_u32_at(b, 76) == 2
            &&& le_u32_at(b, 80) == 2
            &&& le_u32_at(b, 84) == data_start() + payload_total(w.segments)
            &&& b.len() < 0xFFFF_FFFF * 1024
        }),
{
    let b = spk_file_bytes(w);
    let total = payload_total(w.segments);
    lemma_file_parts(w);
    let r1 = file_record(w.idword, w.locifn, (data_start() + total) as u32);
    lemma_file_record(w.idword, w.locifn, (data_start() + total) as u32);
    assert(b.subrange(0, 4) =~= r1.subrange(0, 4));
    assert(b.subrange(0, 8) =~= r1.subrange(0, 8));
    assert(b.subrange(88, 96) =~= r1.subrange(88, 96));
    assert(b.subrange(8, 12) =~= r1.subrange(8, 12));
    assert(b.subrange(12, 16) =~= r1.subrange(12, 16));
    assert(b.subrange(76, 80) =~= r1.subrange(76, 80));
    assert(b.subrange(80, 84) =~= r1.subrange(80, 84));
    assert(b.subrange(84, 88) =~= r1.subrange(84, 88));
}

/// The summary chain of the written file: one record, one summary per
/// segment.
proof fn lemma_written_chain(w: SpkWriterView)
    requires
        writer_valid(w),
        w.segments.len() <= 25,
        writer_fits(w),
    ensures
        daf_summaries(spk_file_bytes(w)) matches Ok(s) && s.len() == w.segments.len() && (
        forall|i: int|
            0 <= i < w.segments.len() ==> #[trigger] s[i] == summary_at(
                spk_file_bytes(w),
                2,
                i,
                2,
                6,
            )),
{
    let segs = w.segments;
    let b = spk_file_bytes(w);
    let n = segs.len();
    lemma_file_parts(w);
    lemma_written_header(w);
    let r2 = summary_record(segs);
    lemma_auto_spec_u64_to_from_le_bytes();
    assert(r2.len() == 1024) by {
        lemma_summary_slots_len(segs);
    }
    assert(r2.subrange(16, 24) =~= le64(count_bits(n)));
    assert(r2.subrange(0, 8) =~= le64(0));
    assert(b.subrange(1040, 1048) =~= r2.subrange(16, 24));
    assert(b.subrange(1024, 1032) =~= r2.subrange(0, 8));
    vstd::arithmetic::power2::lemma2_to64();
    vstd::arithmetic::power2::lemma2_to64_rest();
    lemma_count_bits_roundtrip(n, usize::MAX as int);
    assert(crate::daf::nsum_of(b, 2) == n);
    assert(double_to_uint(0u64, u32::MAX as int) == 0);
    assert(crate::daf::next_of(b, 2) == 0);
    assert(summary_doubles(2, 6) == 5);
    let first = Seq::new(n, |i: int| summary_at(b, 2, i, 2, 6));
    assert(record_summaries(b, 2, 2, 6) == Ok::<Seq<SummaryView>, crate::daf::DafError>(first));
    assert(chain_summaries(b, 0, 2, 6, 0) == Some(
        Ok::<Seq<SummaryView>, crate::daf::DafError>(Seq::empty()),
    ));
    assert(first + Seq::<SummaryView>::empty() =~= first);
    assert(chain_summaries(b, 2, 2, 6, 1) == Some(
        Ok::<Seq<SummaryView>, crate::daf::DafError>(first),
    ));
    lemma_chain_fuel(b, 2, 2, 6, 1, chain_limit(b));
}

/// What the writer writes, the DAF reader reads back. The bytes form a
/// DAF file (SPK idword, ND = 2, NI = 6, little-endian IEEE) whose
/// summary chain ends after one record and yields, in order, one
/// summary per segment: its coverage `[start_et, end_et]`, its target,
/// center, frame and data type, the DAF addresses of its data, and the
/// name from its name slot. The doubles at those addresses are the
/// segment's data.
#[verifier::spinoff_prover]
#[verifier::rlimit(60)]
pub proof fn lemma_written_file_reads_back(w: SpkWriterView)
    requires
        writer_valid(w),
        w.segments.len() <= 25,
        writer_fits(w),
    ensures
        ({
            let b = spk_file_bytes(w);
            let segs = w.segments;
            &&& daf_header_ok(b)
            &&& b.subrange(0, 8) == spk_idword()
            &&& le_u32_at(b, 8) == 2
            &&& le_u32_at(b, 12) == 6
            &&& le_u32_at(b, 76) == 2
            &&& le_u32_at(b, 80) == 2
            &&& le_u32_at(b, 84) == data_start() + payload_total(segs)
            &&& b.len() < 0xFFFF_FFFF * 1024
            &&& daf_summaries(b) is Ok
            &&& daf_summaries(b)->Ok_0.len() == segs.len()
            &&& forall|i: int|
                0 <= i < segs.len() ==> #[trigger] summary_reads_back(
                    daf_summaries(b)->Ok_0[i],
                    segs,
                    i,
                )
            &&& forall|i: int| 0 <= i < segs.len() ==> #[trigger] data_reads_back(b, segs, i)
        }),
{
    let segs = w.segments;
    let b = spk_file_bytes(w);
    lemma_written_header(w);
    lemma_written_chain(w);
    let sums = daf_summaries(b)->Ok_0;
    assert forall|i: int| 0 <= i < segs.len() implies #[trigger] summary_reads_back(sums[i], segs, i) by {
        assert(sums[i] == summary_at(b, 2, i, 2, 6));
        lemma_summary_at_reads_back(w, i);
    }
    assert forall|i: int| 0 <= i < segs.len() implies #[trigger] data_reads_back(b, segs, i) by {
        lemma_segment_data_reads_back(w, i);
    }
}

/// The internal file name of a written file, bytes 16 to 76 of its file
/// record, is the writer's name field: for a writer made from `name`, the
/// first 60 bytes of `name`, padded with spaces (a longer name is cut,
/// never refused).
pub proof fn lemma_written_internal_name(w: SpkWriterView, name: Seq<u8>)
    requires
        writer_valid(w),
        w.segments.len() <= 25,
        writer_fits(w),
        w.locifn == locifn_field(name),
    ensures
        spk_file_bytes(w).subrange(16, 76) == locifn_field(name),
        forall|k: int|
            0 <= k < 60 ==> #[trigger] spk_file_bytes(w)[16 + k] == (if k < name.len() {
                name[k]
            } else {
                32u8
            }),
{
    let b = spk_file_bytes(w);
    lemma_file_parts(w);
    let r1 = file_record(w.idword, w.locifn, (data_start() + payload_total(w.segments)) as u32);
    lemma_file_record(w.idword, w.locifn, (data_start() + payload_total(w.segments)) as u32);
    assert(b.subrange(16, 76) =~= r1.subrange(16, 76));
    assert forall|k: int| 0 <= k < 60 implies #[trigger] b[16 + k] == (if k < name.len() {
        name[k]
    } else {
        32u8
    }) by {
        assert(b.subrange(16, 76)[k] == b[16 + k]);
    }
}

} // verus!
