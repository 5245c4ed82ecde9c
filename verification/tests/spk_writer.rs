use spicekit::daf::DafFile;
use spicekit::spk::{SpkFile, SpkPayload, StatePlan};
use spicekit::spk_writer::{
    validate_segment_id, SpkWriter, SpkWriterError, Type3Record, Type3Segment, Type9Segment,
    SPK_SUMMARIES_PER_RECORD,
};

fn b(x: f64) -> u64 {
    x.to_bits()
}

fn bits(xs: &[f64]) -> Vec<u64> {
    xs.iter().map(|x| x.to_bits()).collect()
}

fn floats(bits: &[u64]) -> Vec<f64> {
    bits.iter().map(|b| f64::from_bits(*b)).collect()
}

fn record(mid: f64, radius: f64, c: [[f64; 3]; 6]) -> Type3Record {
    Type3Record {
        mid: b(mid),
        radius: b(radius),
        x: bits(&c[0]),
        y: bits(&c[1]),
        z: bits(&c[2]),
        vx: bits(&c[3]),
        vy: bits(&c[4]),
        vz: bits(&c[5]),
    }
}

fn unit_record() -> Type3Record {
    Type3Record {
        mid: b(0.5),
        radius: b(0.5),
        x: bits(&[0.0]),
        y: bits(&[0.0]),
        z: bits(&[0.0]),
        vx: bits(&[0.0]),
        vy: bits(&[0.0]),
        vz: bits(&[0.0]),
    }
}

fn open(bytes: Vec<u8>) -> (DafFile, SpkFile) {
    let daf = DafFile::from_bytes(bytes.clone()).expect("daf");
    let spk = SpkFile::from_daf(DafFile::from_bytes(bytes).expect("daf")).expect("spk");
    (daf, spk)
}

#[test]
fn type3_roundtrip_via_daf_reader() {
    let mut w = SpkWriter::new_spk("unit-test");
    let segment = Type3Segment {
        target: 1_000_000,
        center: 0,
        frame_id: 1,
        start_et: b(0.0),
        end_et: b(100.0),
        segment_id: "type3-roundtrip".to_string(),
        init: b(0.0),
        intlen: b(50.0),
        records: vec![
            record(
                25.0,
                25.0,
                [
                    [1.0, 0.0, 0.0],
                    [2.0, 0.0, 0.0],
                    [3.0, 0.0, 0.0],
                    [0.001, 0.0, 0.0],
                    [0.002, 0.0, 0.0],
                    [0.003, 0.0, 0.0],
                ],
            ),
            record(
                75.0,
                25.0,
                [
                    [1.1, 0.0, 0.0],
                    [2.1, 0.0, 0.0],
                    [3.1, 0.0, 0.0],
                    [0.0011, 0.0, 0.0],
                    [0.0022, 0.0, 0.0],
                    [0.0033, 0.0, 0.0],
                ],
            ),
        ],
    };
    w.add_type3(segment.clone()).unwrap();
    assert!(w.fits_in_file());
    let (daf, spk) = open(w.to_bytes().unwrap());

    let summaries = daf.summaries().unwrap();
    assert_eq!(summaries.len(), 1);
    let s = &summaries[0];
    assert_eq!(s.doubles.len(), 2);
    assert_eq!(f64::from_bits(s.doubles[0]), 0.0);
    assert_eq!(f64::from_bits(s.doubles[1]), 100.0);
    assert_eq!(s.integers[0], 1_000_000);
    assert_eq!(s.integers[1], 0);
    assert_eq!(s.integers[2], 1);
    assert_eq!(s.integers[3], 3);
    assert!(s.name.starts_with("type3-roundtrip"));
    let end_addr = s.integers[5] as u32;
    let trailer = floats(&daf.read_doubles(end_addr - 3, end_addr).unwrap());
    assert_eq!(trailer[0], 0.0);
    assert_eq!(trailer[1], 50.0);
    assert_eq!(trailer[2], (2 + 6 * 3) as f64);
    assert_eq!(trailer[3], 2.0);

    assert_eq!(spk.segments().len(), 1);
    let seg = &spk.segments()[0];
    assert_eq!(seg.data_type, 3);
    // At et = 25 the lookup reads segment 0, record 0 (floor(25 / 50)):
    // its leading coefficients are the values written.
    assert!(matches!(spk.plan_state(1_000_000, 0, b(25.0)), StatePlan::Direct(0)));
    match seg.payload {
        SpkPayload::Type3(m) => {
            assert_eq!(m.n_records, 2);
            assert_eq!(m.n_coef, 3);
            let (lo, hi) = spicekit::spk::chebyshev_record_span(&m, 0);
            let rec = floats(&daf.read_doubles(lo, hi).unwrap());
            assert_eq!(rec[0], 25.0);
            assert_eq!(rec[2], 1.0);
            assert_eq!(rec[5], 2.0);
            assert_eq!(rec[8], 3.0);
            assert_eq!(rec[11], 0.001);
            assert_eq!(rec[14], 0.002);
            assert_eq!(rec[17], 0.003);
        }
        other => panic!("expected Type 3 payload, got {other:?}"),
    }
}

#[test]
fn type9_roundtrip_via_daf_reader() {
    let n: usize = 20;
    let mut epochs = Vec::with_capacity(n);
    let mut states = Vec::with_capacity(6 * n);
    for i in 0..n {
        let t = i as f64 * 10.0;
        epochs.push(t);
        states.extend_from_slice(&[1.0 + 0.5 * t, -2.0 + 0.1 * t, 0.5 - 0.2 * t, 0.5, 0.1, -0.2]);
    }
    let mut w = SpkWriter::new_spk("type9-test");
    w.add_type9(Type9Segment {
        target: -1,
        center: 0,
        frame_id: 1,
        start_et: b(epochs[0]),
        end_et: b(*epochs.last().unwrap()),
        segment_id: "type9-linear".to_string(),
        degree: 3,
        states: bits(&states),
        epochs: bits(&epochs),
    })
    .unwrap();
    let (daf, spk) = open(w.to_bytes().unwrap());
    let seg = &spk.segments()[0];
    assert_eq!(seg.data_type, 9);
    assert!(matches!(spk.plan_state(-1, 0, b(55.0)), StatePlan::Direct(0)));
    match seg.payload {
        SpkPayload::Type9(m) => {
            assert_eq!(m.window_or_degree, 3);
            assert_eq!(m.n_states, 20);
            // A window of four epochs around 55: epochs 40, 50, 60, 70.
            let (start, count) =
                spicekit::spk::pick_window(&daf, m.epochs_start, m.n_states, 4, b(55.0)).unwrap();
            assert_eq!((start, count), (4, 4));
            let states_read = floats(&daf.read_doubles(m.states_start, m.states_start + 5).unwrap());
            assert_eq!(states_read, vec![1.0, -2.0, 0.5, 0.5, 0.1, -0.2]);
            // Lagrange interpolation over that window, component by
            // component: exact for linear motion.
            let e0 = m.epochs_start + start as u32;
            let xs = floats(&daf.read_doubles(e0, e0 + count as u32 - 1).unwrap());
            let s0 = m.states_start + 6 * start as u32;
            let rows = floats(&daf.read_doubles(s0, s0 + 6 * count as u32 - 1).unwrap());
            let mut st = [0.0_f64; 6];
            for (c, v) in st.iter_mut().enumerate() {
                let ys: Vec<f64> = (0..count).map(|k| rows[6 * k + c]).collect();
                *v = lagrange(&xs, &ys, 55.0);
            }
            assert!((st[0] - (1.0 + 0.5 * 55.0)).abs() < 1e-12);
            assert!((st[1] - (-2.0 + 0.1 * 55.0)).abs() < 1e-12);
            assert!((st[2] - (0.5 - 0.2 * 55.0)).abs() < 1e-12);
            assert!((st[3] - 0.5).abs() < 1e-14);
            assert!((st[4] - 0.1).abs() < 1e-14);
            assert!((st[5] + 0.2).abs() < 1e-14);
        }
        other => panic!("expected Type 9 payload, got {other:?}"),
    }
}

/// The Lagrange polynomial through `(xs[k], ys[k])`, at `x`.
fn lagrange(xs: &[f64], ys: &[f64], x: f64) -> f64 {
    let mut sum = 0.0;
    for i in 0..xs.len() {
        let mut term = ys[i];
        for j in 0..xs.len() {
            if j != i {
                term *= (x - xs[j]) / (xs[i] - xs[j]);
            }
        }
        sum += term;
    }
    sum
}

fn linear_seg(target: i32, start: f64, end: f64, x_offset: f64) -> Type9Segment {
    let n = (end as usize) - (start as usize) + 1;
    let epochs: Vec<f64> = (0..n).map(|i| start + i as f64).collect();
    let states: Vec<f64> = epochs
        .iter()
        .flat_map(|&t| [x_offset + t, 0.0, 0.0, 1.0, 0.0, 0.0].into_iter())
        .collect();
    Type9Segment {
        target,
        center: 0,
        frame_id: 1,
        start_et: b(start),
        end_et: b(end),
        segment_id: format!("seg_{}_{}", target, x_offset as i64),
        degree: 1,
        states: bits(&states),
        epochs: bits(&epochs),
    }
}

#[test]
fn overlapping_segments_do_not_corrupt_mru_cache() {
    let mut w = SpkWriter::new_spk("overlap-mru");
    w.add_type9(linear_seg(42, 0.0, 9.0, 100.0)).unwrap();
    w.add_type9(linear_seg(42, 5.0, 14.0, 200.0)).unwrap();
    let (_, spk) = open(w.to_bytes().unwrap());
    // The overlap is served by the first-loaded segment, whatever was
    // asked before.
    assert!(matches!(spk.plan_state(42, 0, b(7.0)), StatePlan::Direct(0)));
    assert!(matches!(spk.plan_state(42, 0, b(12.0)), StatePlan::Direct(1)));
    assert!(matches!(spk.plan_state(42, 0, b(7.0)), StatePlan::Direct(0)));
}

#[test]
fn multiple_segments_in_one_file() {
    let mut w = SpkWriter::new_spk("multi");
    let t3 = Type3Segment {
        target: 100,
        center: 0,
        frame_id: 1,
        start_et: b(0.0),
        end_et: b(10.0),
        segment_id: "t3a".to_string(),
        init: b(0.0),
        intlen: b(10.0),
        records: vec![Type3Record {
            mid: b(5.0),
            radius: b(5.0),
            x: bits(&[7.0, 0.0]),
            y: bits(&[8.0, 0.0]),
            z: bits(&[9.0, 0.0]),
            vx: bits(&[0.0, 0.0]),
            vy: bits(&[0.0, 0.0]),
            vz: bits(&[0.0, 0.0]),
        }],
    };
    w.add_type3(t3).unwrap();
    let epochs: Vec<f64> = (0..10).map(|i| i as f64).collect();
    let states: Vec<f64> = (0..10)
        .flat_map(|i| {
            let t = i as f64;
            [10.0 + t, 20.0, 30.0, 1.0, 0.0, 0.0].into_iter()
        })
        .collect();
    w.add_type9(Type9Segment {
        target: 101,
        center: 0,
        frame_id: 1,
        start_et: b(0.0),
        end_et: b(9.0),
        segment_id: "t9a".to_string(),
        degree: 1,
        states: bits(&states),
        epochs: bits(&epochs),
    })
    .unwrap();
    let (daf, spk) = open(w.to_bytes().unwrap());
    assert_eq!(spk.segments().len(), 2);
    assert!(matches!(spk.plan_state(100, 0, b(5.0)), StatePlan::Direct(0)));
    assert!(matches!(spk.plan_state(101, 0, b(5.5)), StatePlan::Direct(1)));
    let s1 = &spk.segments()[1];
    // The Type 9 data follows the Type 3 data directly.
    assert_eq!(s1.start_addr, spk.segments()[0].end_addr + 1);
    let x0 = floats(&daf.read_doubles(s1.start_addr, s1.start_addr).unwrap());
    assert_eq!(x0, vec![10.0]);
}

#[test]
fn file_record_fields_validate() {
    let mut w = SpkWriter::new_spk("header-check");
    w.add_type3(Type3Segment {
        target: 1,
        center: 0,
        frame_id: 1,
        start_et: b(0.0),
        end_et: b(1.0),
        segment_id: "x".to_string(),
        init: b(0.0),
        intlen: b(1.0),
        records: vec![unit_record()],
    })
    .unwrap();
    let bytes = w.to_bytes().unwrap();
    assert_eq!(&bytes[0..8], b"DAF/SPK ");
    assert_eq!(u32::from_le_bytes(bytes[8..12].try_into().unwrap()), 2);
    assert_eq!(u32::from_le_bytes(bytes[12..16].try_into().unwrap()), 6);
    assert_eq!(&bytes[88..96], b"LTL-IEEE");
    assert_eq!(u32::from_le_bytes(bytes[76..80].try_into().unwrap()), 2);
    assert_eq!(u32::from_le_bytes(bytes[80..84].try_into().unwrap()), 2);
}

#[test]
fn rejects_too_many_segments() {
    let mut w = SpkWriter::new_spk("overflow");
    for i in 0..(SPK_SUMMARIES_PER_RECORD + 1) {
        w.add_type3(Type3Segment {
            target: i as i32,
            center: 0,
            frame_id: 1,
            start_et: b(0.0),
            end_et: b(1.0),
            segment_id: format!("s{i}"),
            init: b(0.0),
            intlen: b(1.0),
            records: vec![unit_record()],
        })
        .unwrap();
    }
    let err = w.to_bytes().unwrap_err();
    assert!(matches!(err, SpkWriterError::TooManySegments { got: 26, max: 25 }));
}

#[test]
fn rejects_empty_type3() {
    let mut w = SpkWriter::new_spk("empty");
    let err = w
        .add_type3(Type3Segment {
            target: 1,
            center: 0,
            frame_id: 1,
            start_et: b(0.0),
            end_et: b(1.0),
            segment_id: "x".to_string(),
            init: b(0.0),
            intlen: b(1.0),
            records: vec![],
        })
        .unwrap_err();
    assert!(matches!(err, SpkWriterError::BadType3(_)));
}

#[test]
fn rejects_non_monotone_type9_epochs() {
    let mut w = SpkWriter::new_spk("non-mono");
    let err = w
        .add_type9(Type9Segment {
            target: -1,
            center: 0,
            frame_id: 1,
            start_et: b(0.0),
            end_et: b(1.0),
            segment_id: "x".to_string(),
            degree: 1,
            states: vec![0u64; 6 * 3],
            epochs: bits(&[0.0, 1.0, 0.5]),
        })
        .unwrap_err();
    assert!(matches!(err, SpkWriterError::BadType9(_)));
}

#[test]
fn rejects_segment_id_over_40_bytes() {
    let mut w = SpkWriter::new_spk("long-id");
    let long = "x".repeat(41);
    let err = w
        .add_type3(Type3Segment {
            target: 1,
            center: 0,
            frame_id: 1,
            start_et: b(0.0),
            end_et: b(1.0),
            segment_id: long,
            init: b(0.0),
            intlen: b(1.0),
            records: vec![unit_record()],
        })
        .unwrap_err();
    assert!(matches!(err, SpkWriterError::SegmentIdTooLong(_)));
}

#[test]
fn type9_directory_present_when_n_over_100() {
    let n = 150;
    let epochs: Vec<f64> = (0..n).map(|i| i as f64).collect();
    let states = vec![0u64; 6 * n];
    let mut w = SpkWriter::new_spk("n150");
    w.add_type9(Type9Segment {
        target: -1,
        center: 0,
        frame_id: 1,
        start_et: b(0.0),
        end_et: b((n - 1) as f64),
        segment_id: "n150".to_string(),
        degree: 3,
        states,
        epochs: bits(&epochs),
    })
    .unwrap();
    let daf = DafFile::from_bytes(w.to_bytes().unwrap()).unwrap();
    let s = &daf.summaries().unwrap()[0];
    let end_addr = s.integers[5] as u32;
    let start_addr = s.integers[4] as u32;
    let expected_len = 6 * n + n + 1 + 2;
    assert_eq!((end_addr - start_addr + 1) as usize, expected_len);
    let dir_addr = start_addr + (6 * n + n) as u32;
    let dir = floats(&daf.read_doubles(dir_addr, dir_addr).unwrap());
    assert_eq!(dir[0], 99.0);
}

#[test]
fn type3_rejections_follow_check_order() {
    let mut w = SpkWriter::new_spk("checks");
    let base = Type3Segment {
        target: 1,
        center: 0,
        frame_id: 1,
        start_et: b(0.0),
        end_et: b(1.0),
        segment_id: "x".to_string(),
        init: b(0.0),
        intlen: b(1.0),
        records: vec![unit_record()],
    };
    let mut no_coef = base.clone();
    no_coef.records[0].x = vec![];
    assert!(matches!(w.add_type3(no_coef), Err(SpkWriterError::BadType3("degree < 0"))));
    let mut ragged = base.clone();
    ragged.records[0].vz = bits(&[0.0, 1.0]);
    assert!(matches!(
        w.add_type3(ragged),
        Err(SpkWriterError::BadType3("inconsistent coefficient count"))
    ));
    let mut zero_len = base.clone();
    zero_len.intlen = b(0.0);
    assert!(matches!(w.add_type3(zero_len), Err(SpkWriterError::BadType3("INTLEN must be > 0"))));
    let mut neg_zero = base.clone();
    neg_zero.intlen = b(-0.0);
    assert!(matches!(w.add_type3(neg_zero), Err(SpkWriterError::BadType3("INTLEN must be > 0"))));
    // NaN is not <= 0, so it passes the check (as the comparison does).
    let mut nan_len = base.clone();
    nan_len.intlen = b(f64::NAN);
    assert!(w.add_type3(nan_len).is_ok());
    let bytes = w.to_bytes().unwrap();
    assert_eq!(bytes.len(), 4 * 1024);
}

#[test]
fn type9_rejections_follow_check_order() {
    let mut w = SpkWriter::new_spk("checks9");
    let seg = |states: usize, epochs: &[f64], degree: i32| Type9Segment {
        target: 1,
        center: 0,
        frame_id: 1,
        start_et: b(0.0),
        end_et: b(1.0),
        segment_id: "x".to_string(),
        degree,
        states: vec![0u64; states],
        epochs: bits(epochs),
    };
    assert!(matches!(w.add_type9(seg(0, &[], 1)), Err(SpkWriterError::BadType9("no epochs"))));
    assert!(matches!(
        w.add_type9(seg(7, &[0.0, 1.0], 1)),
        Err(SpkWriterError::BadType9("states length != 6 * epochs length"))
    ));
    assert!(matches!(w.add_type9(seg(12, &[0.0, 1.0], 0)), Err(SpkWriterError::BadType9("degree < 1"))));
    assert!(matches!(
        w.add_type9(seg(12, &[0.0, 1.0], 2)),
        Err(SpkWriterError::BadType9("window (degree+1) exceeds sample count"))
    ));
    assert!(matches!(
        w.add_type9(seg(12, &[1.0, 1.0], 1)),
        Err(SpkWriterError::BadType9("epochs must be strictly increasing"))
    ));
    assert!(w.add_type9(seg(12, &[0.0, 1.0], 1)).is_ok());
}

#[test]
fn segment_id_limit_counts_utf8_bytes() {
    // 20 two-byte characters: 40 bytes, accepted; one more is 42.
    let ok = "é".repeat(20);
    assert!(validate_segment_id(&ok).is_ok());
    let long = "é".repeat(21);
    match validate_segment_id(&long) {
        Err(SpkWriterError::SegmentIdTooLong(s)) => assert_eq!(s, long),
        other => panic!("expected SegmentIdTooLong, got {other:?}"),
    }
}

#[test]
fn written_layout_has_names_padding_and_free_pointer() {
    let mut w = SpkWriter::new_spk("layout");
    w.add_type3(Type3Segment {
        target: 7,
        center: 3,
        frame_id: 17,
        start_et: b(-1.5),
        end_et: b(2.5),
        segment_id: "NAME".to_string(),
        init: b(-1.5),
        intlen: b(4.0),
        records: vec![unit_record()],
    })
    .unwrap();
    let bytes = w.to_bytes().unwrap();
    // One record of 2 + 6 doubles plus the 4-double trailer: 12 doubles.
    assert_eq!(bytes.len(), 4 * 1024);
    assert_eq!(&bytes[16..22], b"layout");
    assert_eq!(bytes[22], b' ');
    // FREE is the first address after the data: 385 + 12.
    assert_eq!(u32::from_le_bytes(bytes[84..88].try_into().unwrap()), 397);
    assert_eq!(&bytes[500..507], b"FTPSTR:");
    assert_eq!(&bytes[522..528], b"ENDFTP");
    // NSUM = 1.0, then the slot's doubles and integers.
    assert_eq!(f64::from_le_bytes(bytes[1040..1048].try_into().unwrap()), 1.0);
    assert_eq!(f64::from_le_bytes(bytes[1048..1056].try_into().unwrap()), -1.5);
    assert_eq!(i32::from_le_bytes(bytes[1064..1068].try_into().unwrap()), 7);
    assert_eq!(i32::from_le_bytes(bytes[1068..1072].try_into().unwrap()), 3);
    assert_eq!(i32::from_le_bytes(bytes[1072..1076].try_into().unwrap()), 17);
    assert_eq!(i32::from_le_bytes(bytes[1076..1080].try_into().unwrap()), 3);
    assert_eq!(i32::from_le_bytes(bytes[1080..1084].try_into().unwrap()), 385);
    assert_eq!(i32::from_le_bytes(bytes[1084..1088].try_into().unwrap()), 396);
    // The name slot is the id padded with spaces.
    assert_eq!(&bytes[2048..2052], b"NAME");
    assert!(bytes[2052..3072].iter().all(|c| *c == b' '));
    // Trailer doubles: INIT, INTLEN, RSIZE = 8, N = 1.
    let t = |k: usize| f64::from_le_bytes(bytes[3072 + 8 * k..3080 + 8 * k].try_into().unwrap());
    assert_eq!((t(8), t(9), t(10), t(11)), (-1.5, 4.0, 8.0, 1.0));
    assert!(bytes[3072 + 96..].iter().all(|c| *c == 0));
}

#[test]
fn type9_with_hundred_epochs_reads_back() {
    let n = 100;
    let epochs: Vec<f64> = (0..n).map(|i| i as f64).collect();
    let mut states = Vec::new();
    for t in &epochs {
        states.extend_from_slice(&bits(&[*t, 0.0, 0.0, 1.0, 0.0, 0.0]));
    }
    let mut w = SpkWriter::new_spk("rt");
    w.add_type9(Type9Segment {
        target: -1,
        center: 0,
        frame_id: 1,
        start_et: b(0.0),
        end_et: b(99.0),
        segment_id: "n100".to_string(),
        degree: 1,
        states,
        epochs: bits(&epochs),
    })
    .unwrap();
    let bytes = w.to_bytes().unwrap();
    let (daf, spk) = open(bytes);
    let s = &daf.summaries().unwrap()[0];
    // No directory epoch: (100 - 1) / 100 == 0.
    assert_eq!((s.integers[5] - s.integers[4] + 1) as usize, 7 * n + 2);
    assert_eq!(spk.segments().len(), 1);
    assert_eq!(spk.segments()[0].data_type, 9);
    match spk.segments()[0].payload {
        SpkPayload::Type9(m) => {
            assert_eq!(m.n_states, 100);
            assert_eq!(m.window_or_degree, 1);
        }
        _ => panic!("expected a Type 9 payload"),
    }
}

#[test]
fn type9_with_two_hundred_epochs_has_one_directory_epoch() {
    let n = 200;
    let epochs: Vec<f64> = (0..n).map(|i| i as f64).collect();
    let mut w = SpkWriter::new_spk("n200");
    w.add_type9(Type9Segment {
        target: -1,
        center: 0,
        frame_id: 1,
        start_et: b(0.0),
        end_et: b(199.0),
        segment_id: "n200".to_string(),
        degree: 1,
        states: vec![0u64; 6 * n],
        epochs: bits(&epochs),
    })
    .unwrap();
    let (daf, spk) = open(w.to_bytes().unwrap());
    let s = &daf.summaries().unwrap()[0];
    let start_addr = s.integers[4] as u32;
    assert_eq!((s.integers[5] - s.integers[4] + 1) as usize, 7 * n + 1 + 2);
    let dir_addr = start_addr + (7 * n) as u32;
    assert_eq!(floats(&daf.read_doubles(dir_addr, dir_addr).unwrap()), vec![99.0]);
    assert_eq!(spk.segments().len(), 1);
}

#[test]
fn internal_file_name_is_cut_or_padded_to_sixty_bytes() {
    let short = SpkWriter::new_spk("short").to_bytes().unwrap();
    let mut expected = b"short".to_vec();
    expected.resize(60, b' ');
    assert_eq!(&short[16..76], &expected[..]);
    let long_name = "N".repeat(75);
    let long = SpkWriter::new_spk(&long_name).to_bytes().unwrap();
    assert_eq!(&long[16..76], "N".repeat(60).as_bytes());
}
