use spicekit::daf::{DafFile, RECORD_BYTES};
use spicekit::pck::{PckError, PckFile, PckPayload};

const ITRF93_FRAME: i32 = 3000;
const ECLIPJ2000_FRAME: i32 = 17;

struct SegSpec {
    body_frame: i32,
    ref_frame: i32,
    data_type: i32,
    start_et: f64,
    end_et: f64,
    mid: f64,
    radius: f64,
    ra: Vec<f64>,
    dec: Vec<f64>,
    w: Vec<f64>,
}

fn spec(start_et: f64, end_et: f64, mid: f64, radius: f64, ra: &[f64], dec: &[f64], w: &[f64]) -> SegSpec {
    SegSpec {
        body_frame: ITRF93_FRAME,
        ref_frame: ECLIPJ2000_FRAME,
        data_type: 2,
        start_et,
        end_et,
        mid,
        radius,
        ra: ra.to_vec(),
        dec: dec.to_vec(),
        w: w.to_vec(),
    }
}

/// A binary PCK (ND = 2, NI = 5) holding one one-record Type 2 segment
/// per spec, back to back from record 4.
fn build_pck(segs: &[SegSpec], name: &[u8]) -> Vec<u8> {
    let mut record1 = vec![0u8; RECORD_BYTES];
    record1[0..8].copy_from_slice(b"DAF/PCK ");
    record1[8..12].copy_from_slice(&2u32.to_le_bytes());
    record1[12..16].copy_from_slice(&5u32.to_le_bytes());
    for b in &mut record1[16..76] {
        *b = b' ';
    }
    record1[76..80].copy_from_slice(&2u32.to_le_bytes());
    record1[80..84].copy_from_slice(&2u32.to_le_bytes());
    record1[88..96].copy_from_slice(b"LTL-IEEE");
    let mut record2 = vec![0u8; RECORD_BYTES];
    record2[16..24].copy_from_slice(&(segs.len() as f64).to_le_bytes());
    let mut record3 = vec![b' '; RECORD_BYTES];
    record3[..name.len()].copy_from_slice(name);
    let mut data_bytes = Vec::new();
    let mut cursor: u32 = 385;
    for (i, s) in segs.iter().enumerate() {
        let n_coef = s.ra.len();
        let rsize = 2 + 3 * n_coef;
        let mut data = vec![s.mid, s.radius];
        data.extend_from_slice(&s.ra);
        data.extend_from_slice(&s.dec);
        data.extend_from_slice(&s.w);
        data.extend_from_slice(&[s.start_et, s.end_et - s.start_et, rsize as f64, 1.0]);
        let start = cursor;
        let end = start + data.len() as u32 - 1;
        cursor = end + 1;
        // Summary: 2 doubles + 5 integers = 5 doubles (40 bytes).
        let soff = 24 + 40 * i;
        record2[soff..soff + 8].copy_from_slice(&s.start_et.to_le_bytes());
        record2[soff + 8..soff + 16].copy_from_slice(&s.end_et.to_le_bytes());
        let ints = [s.body_frame, s.ref_frame, s.data_type, start as i32, end as i32];
        for (k, v) in ints.iter().enumerate() {
            record2[soff + 16 + 4 * k..soff + 20 + 4 * k].copy_from_slice(&v.to_le_bytes());
        }
        for d in &data {
            data_bytes.extend_from_slice(&d.to_le_bytes());
        }
    }
    while data_bytes.len() % RECORD_BYTES != 0 {
        data_bytes.push(0);
    }
    let mut all = record1;
    all.extend_from_slice(&record2);
    all.extend_from_slice(&record3);
    all.extend_from_slice(&data_bytes);
    all
}

fn load(segs: &[SegSpec]) -> PckFile {
    PckFile::from_daf(DafFile::from_bytes(build_pck(segs, b"SYNTHETIC TEST SEGMENT")).unwrap()).unwrap()
}

fn b(x: f64) -> u64 {
    x.to_bits()
}

#[test]
fn from_daf_recovers_segment_metadata() {
    let pck = load(&[spec(-3e8, 3e8, 0.0, 3e8, &[0.1, 0.0], &[0.2, 0.0], &[0.3, 0.5])]);
    let segs = pck.segments();
    assert_eq!(segs.len(), 1);
    let seg = &segs[0];
    assert_eq!(seg.body_frame, ITRF93_FRAME);
    assert_eq!(seg.ref_frame, ECLIPJ2000_FRAME);
    assert_eq!(seg.data_type, 2);
    assert_eq!(f64::from_bits(seg.start_et), -3e8);
    assert_eq!(f64::from_bits(seg.end_et), 3e8);
    assert_eq!(seg.name, "SYNTHETIC TEST SEGMENT");
    match seg.payload {
        PckPayload::Type2(m) => {
            assert_eq!((m.rsize, m.n_records, m.n_coef), (8, 1, 2));
            assert_eq!(f64::from_bits(m.intlen), 6e8);
        }
        PckPayload::Unsupported => panic!("expected Type 2"),
    }
}

#[test]
fn euler_state_with_ref_returns_reference_frame_id() {
    let pck = load(&[spec(-10.0, 10.0, 0.0, 10.0, &[0.0, 0.0], &[0.0, 0.0], &[0.0, 0.0])]);
    let i = pck.orientation_segment(ITRF93_FRAME, b(0.0)).expect("covered");
    assert_eq!(pck.segments()[i].ref_frame, ECLIPJ2000_FRAME);
}

#[test]
fn no_coverage_when_body_frame_not_present() {
    let pck = load(&[spec(-10.0, 10.0, 0.0, 10.0, &[0.0, 0.0], &[0.0, 0.0], &[0.0, 0.0])]);
    match pck.orientation_segment(9999, b(0.0)) {
        Err(PckError::NoCoverage { body, et, .. }) => {
            assert_eq!(body, 9999);
            assert_eq!(f64::from_bits(et), 0.0);
        }
        other => panic!("expected NoCoverage, got {other:?}"),
    }
}

#[test]
fn no_coverage_when_epoch_outside_segment_range() {
    let pck = load(&[spec(-10.0, 10.0, 0.0, 10.0, &[0.0, 0.0], &[0.0, 0.0], &[0.0, 0.0])]);
    match pck.orientation_segment(ITRF93_FRAME, b(50.0)) {
        Err(PckError::NoCoverage { body, ref_frame, et }) => {
            assert_eq!(body, ITRF93_FRAME);
            assert_eq!(ref_frame, 1);
            assert_eq!(f64::from_bits(et), 50.0);
        }
        other => panic!("expected NoCoverage, got {other:?}"),
    }
}

#[test]
fn later_segment_wins_when_coverage_overlaps() {
    let earlier = spec(-100.0, 100.0, 0.0, 100.0, &[1.0, 0.0], &[0.0, 0.0], &[0.0, 0.0]);
    let later = spec(-50.0, 50.0, 0.0, 50.0, &[2.0, 0.0], &[0.0, 0.0], &[0.0, 0.0]);
    let pck = load(&[earlier, later]);
    let ra0 = |i: usize| {
        let seg = &pck.segments()[i];
        match seg.payload {
            PckPayload::Type2(m) => f64::from_bits(pck.daf().read_doubles(m.start_addr + 2, m.start_addr + 2).unwrap()[0]),
            PckPayload::Unsupported => panic!("expected Type 2"),
        }
    };
    // In the overlap the later segment is read (RA = 2.0).
    let overlap = pck.orientation_segment(ITRF93_FRAME, b(0.0)).unwrap();
    assert_eq!(overlap, 1);
    assert_eq!(ra0(overlap), 2.0);
    // Outside the later segment, the earlier one (RA = 1.0).
    let outside = pck.orientation_segment(ITRF93_FRAME, b(75.0)).unwrap();
    assert_eq!(outside, 0);
    assert_eq!(ra0(outside), 1.0);
}

#[test]
fn unsupported_segment_type_is_an_error_when_chosen() {
    let mut s = spec(-10.0, 10.0, 0.0, 10.0, &[0.0, 0.0], &[0.0, 0.0], &[0.0, 0.0]);
    s.data_type = 3;
    let pck = load(&[s]);
    assert!(matches!(pck.segments()[0].payload, PckPayload::Unsupported));
    assert!(matches!(pck.orientation_segment(ITRF93_FRAME, b(0.0)), Err(PckError::UnsupportedType(3))));
}

#[test]
fn malformed_pck_trailer_is_rejected() {
    let bytes = build_pck(&[spec(-10.0, 10.0, 0.0, 10.0, &[0.0, 0.0], &[0.0, 0.0], &[0.0, 0.0])], b"X");
    let mut bad = bytes.clone();
    // INTLEN (second trailer double, address 394) := -1.
    let off = (394 - 1) * 8;
    bad[off..off + 8].copy_from_slice(&(-1.0f64).to_le_bytes());
    let r = PckFile::from_daf(DafFile::from_bytes(bad).unwrap());
    assert!(matches!(r, Err(PckError::BadType2("degree<0 or INTLEN<=0"))));
}
