use spicekit::daf::{DafFile, DOUBLE_BYTES, RECORD_BYTES};
use spicekit::spk::{
    chebyshev_record_span, chebyshev_records_fit_exec, pick_window, SpkError, SpkFile, SpkPayload,
    StatePlan,
};

struct SegSpec {
    target: i32,
    center: i32,
    data_type: i32,
    start_et: f64,
    end_et: f64,
    /// The doubles of the segment, trailer included.
    data: Vec<f64>,
}

fn type2(target: i32, center: i32, start_et: f64, end_et: f64, x0: f64) -> SegSpec {
    let mid = 0.5 * (start_et + end_et);
    let radius = 0.5 * (end_et - start_et);
    SegSpec {
        target,
        center,
        data_type: 2,
        start_et,
        end_et,
        data: vec![mid, radius, x0, 0.0, 0.0, 0.0, 0.0, 0.0, start_et, end_et - start_et, 8.0, 1.0],
    }
}

/// A DAF/SPK file holding the segments back to back from record 4.
fn build_spk(segs: &[SegSpec]) -> Vec<u8> {
    let mut record1 = vec![0u8; RECORD_BYTES];
    record1[0..8].copy_from_slice(b"DAF/SPK ");
    record1[8..12].copy_from_slice(&2u32.to_le_bytes());
    record1[12..16].copy_from_slice(&6u32.to_le_bytes());
    record1[76..80].copy_from_slice(&2u32.to_le_bytes());
    record1[80..84].copy_from_slice(&2u32.to_le_bytes());
    record1[88..96].copy_from_slice(b"LTL-IEEE");
    let mut record2 = vec![0u8; RECORD_BYTES];
    record2[16..24].copy_from_slice(&(segs.len() as f64).to_le_bytes());
    let mut record3 = vec![b' '; RECORD_BYTES];
    let mut data_bytes = Vec::new();
    let mut cursor: u32 = 385;
    for (i, s) in segs.iter().enumerate() {
        let start = cursor;
        let end = start + s.data.len() as u32 - 1;
        cursor = end + 1;
        let soff = 24 + 40 * i;
        record2[soff..soff + 8].copy_from_slice(&s.start_et.to_le_bytes());
        record2[soff + 8..soff + 16].copy_from_slice(&s.end_et.to_le_bytes());
        let ints = [s.target, s.center, 1, s.data_type, start as i32, end as i32];
        for (k, v) in ints.iter().enumerate() {
            record2[soff + 16 + 4 * k..soff + 20 + 4 * k].copy_from_slice(&v.to_le_bytes());
        }
        let name = format!("SEG {i}");
        record3[40 * i..40 * i + name.len()].copy_from_slice(name.as_bytes());
        for d in &s.data {
            data_bytes.extend_from_slice(&d.to_le_bytes());
        }
    }
    while data_bytes.len() % RECORD_BYTES != 0 {
        data_bytes.push(0);
    }
    let mut all = record1;
    all.extend_from_slice(&record2);
    all.extend_from_slice(&record3);
    all.extend_from_slice(&data_bytes);
    all
}

fn load(segs: &[SegSpec]) -> Result<SpkFile, SpkError> {
    SpkFile::from_daf(DafFile::from_bytes(build_spk(segs)).unwrap())
}

fn b(x: f64) -> u64 {
    x.to_bits()
}

#[test]
fn plan_reverse_pair_negates_the_forward_segment() {
    let spk = load(&[type2(3, 10, -10.0, 10.0, 7.0)]).unwrap();
    assert!(matches!(spk.plan_state(3, 10, b(0.0)), StatePlan::Direct(0)));
    assert!(matches!(spk.plan_state(10, 3, b(0.0)), StatePlan::Reversed(0)));
}

#[test]
fn plan_walks_both_bodies_to_the_barycenter() {
    let spk = load(&[
        type2(399, 3, -100.0, 100.0, 1.0),
        type2(3, 0, -100.0, 100.0, 100.0),
        type2(10, 0, -100.0, 100.0, 0.1),
    ])
    .unwrap();
    match spk.plan_state(399, 10, b(0.0)) {
        StatePlan::ViaSsb(t, c) => {
            assert!(t.reached);
            assert_eq!(t.steps.len(), 2);
            assert_eq!(t.steps[0].chosen, 0);
            assert_eq!(t.steps[0].evaluated, vec![0]);
            assert_eq!(t.steps[1].chosen, 1);
            assert!(c.reached);
            assert_eq!(c.steps.len(), 1);
            assert_eq!(c.steps[0].chosen, 2);
        }
        other => panic!("expected a walk, got {other:?}"),
    }
    // Earth wrt SSB: a direct pair does not exist, so both walk (SSB's is empty).
    match spk.plan_state(399, 0, b(0.0)) {
        StatePlan::ViaSsb(t, c) => {
            assert!(t.reached);
            assert_eq!(t.steps.len(), 2);
            assert!(c.reached);
            assert!(c.steps.is_empty());
        }
        other => panic!("expected a walk, got {other:?}"),
    }
}

#[test]
fn plan_has_no_coverage_outside_the_segment() {
    let spk = load(&[type2(5, 0, -10.0, 10.0, 1.0)]).unwrap();
    match spk.plan_state(5, 0, b(1000.0)) {
        StatePlan::ViaSsb(t, _) => {
            assert!(!t.reached);
            assert!(t.steps.is_empty());
        }
        other => panic!("expected a failed walk, got {other:?}"),
    }
    // Unknown target.
    match spk.plan_state(9999, 0, b(0.0)) {
        StatePlan::ViaSsb(t, _) => assert!(!t.reached),
        other => panic!("expected a failed walk, got {other:?}"),
    }
}

#[test]
fn plan_same_body_is_zero() {
    let spk = load(&[type2(5, 0, -10.0, 10.0, 1.0)]).unwrap();
    assert!(matches!(spk.plan_state(7, 7, b(0.0)), StatePlan::Zero));
}

#[test]
fn plan_selects_segment_by_epoch_range() {
    let spk = load(&[type2(5, 0, -100.0, 0.0, 1.0), type2(5, 0, 0.0, 100.0, 2.0)]).unwrap();
    assert!(matches!(spk.plan_state(5, 0, b(-50.0)), StatePlan::Direct(0)));
    assert!(matches!(spk.plan_state(5, 0, b(50.0)), StatePlan::Direct(1)));
    // The shared edge belongs to the first segment loaded.
    assert!(matches!(spk.plan_state(5, 0, b(0.0)), StatePlan::Direct(0)));
    // NaN is covered by nothing.
    assert!(matches!(spk.plan_state(5, 0, b(f64::NAN)), StatePlan::ViaSsb(..)));
}

#[test]
fn walk_prefers_a_step_straight_to_the_barycenter() {
    let spk = load(&[
        type2(399, 3, -10.0, 10.0, 1.0),
        type2(399, 0, -10.0, 10.0, 2.0),
        type2(399, 3, -10.0, 10.0, 3.0),
    ])
    .unwrap();
    let w = spk.walk_to_barycenter(399, b(0.0));
    assert!(w.reached);
    assert_eq!(w.steps.len(), 1);
    assert_eq!(w.steps[0].chosen, 1);
    // Segments up to the chosen one are evaluated, in order.
    assert_eq!(w.steps[0].evaluated, vec![0, 1]);
}

#[test]
fn walk_stops_on_a_cycle() {
    let spk = load(&[type2(5, 6, -10.0, 10.0, 1.0), type2(6, 5, -10.0, 10.0, 2.0)]).unwrap();
    let w = spk.walk_to_barycenter(5, b(0.0));
    assert!(!w.reached);
    assert_eq!(w.steps.len(), 2);
    // The barycenter itself needs no step.
    let w0 = spk.walk_to_barycenter(0, b(0.0));
    assert!(w0.reached && w0.steps.is_empty());
}

#[test]
fn walk_gives_up_after_thirty_two_steps() {
    // 1 -> 2 -> 3 -> 2 -> 3 -> ... never reaches the barycenter nor
    // returns to body 1.
    let spk = load(&[
        type2(1, 2, -1.0, 1.0, 0.0),
        type2(2, 3, -1.0, 1.0, 0.0),
        type2(3, 2, -1.0, 1.0, 0.0),
    ])
    .unwrap();
    let w = spk.walk_to_barycenter(1, b(0.0));
    assert!(!w.reached);
    assert_eq!(w.steps.len(), 32);
}

#[test]
fn multi_record_span_follows_the_clamped_index() {
    let data = vec![
        50.0, 50.0, 10.0, 0.0, 0.0, 0.0, 0.0, 0.0, //
        150.0, 50.0, 20.0, 0.0, 0.0, 0.0, 0.0, 0.0, //
        250.0, 50.0, 30.0, 0.0, 0.0, 0.0, 0.0, 0.0, //
        0.0, 100.0, 8.0, 3.0,
    ];
    let spk = load(&[SegSpec { target: 5, center: 0, data_type: 2, start_et: 0.0, end_et: 300.0, data }])
        .unwrap();
    let seg = &spk.segments()[0];
    let m = match seg.payload {
        SpkPayload::Type2(m) => m,
        other => panic!("expected Type 2, got {other:?}"),
    };
    assert_eq!((m.rsize, m.n_records, m.n_coef), (8, 3, 2));
    assert!(chebyshev_records_fit_exec(&m));
    assert_eq!(chebyshev_record_span(&m, 0), (385, 392));
    assert_eq!(chebyshev_record_span(&m, 1), (393, 400));
    assert_eq!(chebyshev_record_span(&m, 2), (401, 408));
    // Past the last record clamps to it; before the first, to the first.
    assert_eq!(chebyshev_record_span(&m, 3), (401, 408));
    assert_eq!(chebyshev_record_span(&m, -4), (385, 392));
    let rec = spk.daf().read_doubles(401, 408).unwrap();
    assert_eq!(f64::from_bits(rec[2]), 30.0);
}

#[test]
fn trailer_errors_are_reported() {
    // RSIZE 9 is not 2 + 3N.
    let mut bad = type2(5, 0, -1.0, 1.0, 0.0);
    bad.data[10] = 9.0;
    assert!(matches!(load(&[bad]), Err(SpkError::BadType2("RSIZE not 2 + 3N"))));
    // RSIZE 2: no coefficients.
    let mut deg = type2(5, 0, -1.0, 1.0, 0.0);
    deg.data[10] = 2.0;
    assert!(matches!(load(&[deg]), Err(SpkError::BadType2("degree < 0"))));
    // INTLEN 0.
    let mut len0 = type2(5, 0, -1.0, 1.0, 0.0);
    len0.data[9] = 0.0;
    assert!(matches!(load(&[len0]), Err(SpkError::BadType2("INTLEN <= 0"))));
    // No records: nothing to evaluate.
    let mut none = type2(5, 0, -1.0, 1.0, 0.0);
    none.data[11] = 0.0;
    assert!(matches!(load(&[none]), Err(SpkError::BadType2("segment has no records"))));
    // Type 3 with RSIZE 11 is not 2 + 6N.
    let mut t3 = type2(5, 0, -1.0, 1.0, 0.0);
    t3.data_type = 3;
    t3.data[10] = 11.0;
    assert!(matches!(load(&[t3]), Err(SpkError::BadType2("RSIZE not 2 + 6N"))));
    // An unknown data type is kept, unsupported.
    let mut other = type2(5, 0, -1.0, 1.0, 0.0);
    other.data_type = 21;
    let spk = load(&[other]).unwrap();
    assert!(matches!(spk.segments()[0].payload, SpkPayload::Unsupported));
}

fn type9_data(n: usize, extra: usize, degree: f64) -> Vec<f64> {
    let mut d = vec![0.0; 6 * n];
    d.extend((0..n).map(|i| i as f64));
    d.extend(std::iter::repeat(0.0).take(extra));
    d.push(degree);
    d.push(n as f64);
    d
}

#[test]
fn discrete_trailers_are_checked_against_the_segment_size() {
    let ok = SegSpec { target: 1, center: 0, data_type: 9, start_et: 0.0, end_et: 4.0, data: type9_data(5, 0, 1.0) };
    let spk = load(&[ok]).unwrap();
    match spk.segments()[0].payload {
        SpkPayload::Type9(m) => {
            assert_eq!((m.window_or_degree, m.n_states), (1, 5));
            assert_eq!((m.states_start, m.epochs_start), (385, 415));
        }
        other => panic!("expected Type 9, got {other:?}"),
    }
    let wrong = SegSpec { target: 1, center: 0, data_type: 9, start_et: 0.0, end_et: 4.0, data: type9_data(5, 1, 1.0) };
    assert!(matches!(load(&[wrong]), Err(SpkError::BadType2("segment size does not match trailer"))));
    let empty = SegSpec { target: 1, center: 0, data_type: 9, start_et: 0.0, end_et: 4.0, data: vec![1.0, 0.0] };
    assert!(matches!(load(&[empty]), Err(SpkError::BadType2("empty discrete-state segment"))));
    let t13 = SegSpec { target: 1, center: 0, data_type: 13, start_et: 0.0, end_et: 4.0, data: type9_data(5, 0, 0.0) };
    assert!(matches!(load(&[t13]), Err(SpkError::BadType2("Type 13 window size < 2"))));
}

#[test]
fn pick_window_centers_on_the_last_epoch_not_after() {
    let seg = SegSpec { target: 1, center: 0, data_type: 9, start_et: 0.0, end_et: 9.0, data: type9_data(10, 0, 3.0) };
    let spk = load(&[seg]).unwrap();
    let m = match spk.segments()[0].payload {
        SpkPayload::Type9(m) => m,
        other => panic!("expected Type 9, got {other:?}"),
    };
    let daf = spk.daf();
    assert_eq!(pick_window(daf, m.epochs_start, 10, 4, b(4.5)).unwrap(), (3, 4));
    assert_eq!(pick_window(daf, m.epochs_start, 10, 4, b(-3.0)).unwrap(), (0, 4));
    assert_eq!(pick_window(daf, m.epochs_start, 10, 4, b(100.0)).unwrap(), (6, 4));
    assert_eq!(pick_window(daf, m.epochs_start, 10, 5, b(4.0)).unwrap(), (2, 5));
    assert_eq!(pick_window(daf, m.epochs_start, 10, 30, b(4.0)).unwrap(), (0, 10));
    assert!(matches!(pick_window(daf, m.epochs_start, 10, 0, b(4.0)), Err(SpkError::BadType2("window size 0"))));
}

#[test]
fn summaries_too_short_are_skipped() {
    // A DAF with ND = 1 gives summaries of one double: none is an SPK summary.
    let mut bytes = build_spk(&[type2(5, 0, -1.0, 1.0, 0.0)]);
    bytes[8..12].copy_from_slice(&1u32.to_le_bytes());
    let spk = SpkFile::from_daf(DafFile::from_bytes(bytes).unwrap()).unwrap();
    assert!(spk.segments().is_empty());
    let _ = DOUBLE_BYTES;
}
