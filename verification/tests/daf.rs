use spicekit::daf::{
    kernel_kind, load_step, DafError, DafFile, KernelKind, LoadStep, DOUBLE_BYTES, RECORD_BYTES,
};

/// Build a minimal, valid DAF file with one summary record containing
/// `summaries` entries:
///   record 1: file record (idword, nd, ni, fward=2, bward=2, LTL-IEEE marker)
///   record 2: summary record (NEXT=0, PREV=0, NSUM, then summaries)
///   record 3: name record (one 8*ss-byte name slot per summary)
///   record 4+: data records (filled with `data` doubles laid out sequentially)
fn build_daf(
    idword: &[u8; 8],
    nd: u32,
    ni: u32,
    summaries: &[(Vec<f64>, Vec<i32>, String)],
    data: &[f64],
) -> Vec<u8> {
    assert!(summaries
        .iter()
        .all(|(d, i, _)| d.len() == nd as usize && i.len() == ni as usize));
    let ss_doubles = nd as usize + (ni as usize).div_ceil(2);
    let summary_bytes = ss_doubles * DOUBLE_BYTES;

    let mut record1 = vec![0u8; RECORD_BYTES];
    record1[0..8].copy_from_slice(idword);
    record1[8..12].copy_from_slice(&nd.to_le_bytes());
    record1[12..16].copy_from_slice(&ni.to_le_bytes());
    for b in &mut record1[16..76] {
        *b = b' ';
    }
    record1[76..80].copy_from_slice(&2u32.to_le_bytes());
    record1[80..84].copy_from_slice(&2u32.to_le_bytes());
    record1[84..88].copy_from_slice(&0u32.to_le_bytes());
    record1[88..96].copy_from_slice(b"LTL-IEEE");

    let mut record2 = vec![0u8; RECORD_BYTES];
    record2[0..8].copy_from_slice(&(0.0f64).to_le_bytes());
    record2[8..16].copy_from_slice(&(0.0f64).to_le_bytes());
    record2[16..24].copy_from_slice(&(summaries.len() as f64).to_le_bytes());
    for (i, (doubles, integers, _name)) in summaries.iter().enumerate() {
        let soff = 24 + i * summary_bytes;
        for (k, d) in doubles.iter().enumerate() {
            record2[soff + k * DOUBLE_BYTES..soff + (k + 1) * DOUBLE_BYTES]
                .copy_from_slice(&d.to_le_bytes());
        }
        let int_start = soff + (nd as usize) * DOUBLE_BYTES;
        for (k, v) in integers.iter().enumerate() {
            record2[int_start + k * 4..int_start + (k + 1) * 4].copy_from_slice(&v.to_le_bytes());
        }
    }

    let mut record3 = vec![b' '; RECORD_BYTES];
    for (i, (_, _, name)) in summaries.iter().enumerate() {
        let noff = i * summary_bytes;
        let nbytes = name.as_bytes();
        let n = nbytes.len().min(summary_bytes);
        record3[noff..noff + n].copy_from_slice(&nbytes[..n]);
    }

    let mut data_bytes = Vec::new();
    for d in data {
        data_bytes.extend_from_slice(&d.to_le_bytes());
    }
    while data_bytes.len() % RECORD_BYTES != 0 {
        data_bytes.push(0);
    }

    let mut all = Vec::new();
    all.extend_from_slice(&record1);
    all.extend_from_slice(&record2);
    all.extend_from_slice(&record3);
    all.extend_from_slice(&data_bytes);
    all
}

fn floats(bits: &[u64]) -> Vec<f64> {
    bits.iter().map(|b| f64::from_bits(*b)).collect()
}

#[test]
fn rejects_file_smaller_than_one_record() {
    match DafFile::from_bytes(vec![0u8; 512]) {
        Err(DafError::TooSmall(n)) => assert_eq!(n, 512),
        Ok(_) => panic!("expected TooSmall, got Ok"),
        Err(e) => panic!("expected TooSmall, got {e:?}"),
    }
}

#[test]
fn rejects_unknown_idword() {
    let mut bytes = vec![0u8; RECORD_BYTES];
    bytes[0..8].copy_from_slice(b"BOGUSFMT");
    bytes[88..96].copy_from_slice(b"LTL-IEEE");
    match DafFile::from_bytes(bytes) {
        Err(DafError::BadIdword(w)) => assert_eq!(&w, b"BOGUSFMT"),
        Ok(_) => panic!("expected BadIdword, got Ok"),
        Err(e) => panic!("expected BadIdword, got {e:?}"),
    }
}

#[test]
fn rejects_non_ltl_ieee_format() {
    let mut bytes = vec![0u8; RECORD_BYTES];
    bytes[0..8].copy_from_slice(b"DAF/SPK ");
    bytes[88..96].copy_from_slice(b"BIG-IEEE");
    match DafFile::from_bytes(bytes) {
        Err(DafError::UnsupportedFormat(w)) => assert_eq!(&w, b"BIG-IEEE"),
        Ok(_) => panic!("expected UnsupportedFormat, got Ok"),
        Err(e) => panic!("expected UnsupportedFormat, got {e:?}"),
    }
}

#[test]
fn parses_nd_ni_fward_bward_from_file_record() {
    let all = build_daf(
        b"DAF/SPK ",
        2,
        6,
        &[(vec![0.0, 0.0], vec![0, 0, 0, 0, 0, 0], "EMPTY".to_string())],
        &[],
    );
    let daf = DafFile::from_bytes(all).expect("open");
    assert_eq!(&daf.idword(), b"DAF/SPK ");
    assert_eq!(daf.nd(), 2);
    assert_eq!(daf.ni(), 6);
    assert_eq!(daf.summary_size_doubles(), 5);
}

#[test]
fn summaries_round_trip_nd_ni_and_name() {
    let s1 = (
        vec![0.0f64, 100.0],
        vec![301, 399, 1, 2, 1001, 1100],
        "EARTH FROM MOON".to_string(),
    );
    let s2 = (
        vec![100.0f64, 200.0],
        vec![10, 0, 1, 2, 1101, 1200],
        "SUN FROM SSB".to_string(),
    );
    let all = build_daf(b"DAF/SPK ", 2, 6, &[s1.clone(), s2.clone()], &[]);
    let daf = DafFile::from_bytes(all).expect("open");
    let sums = daf.summaries().expect("summaries");
    assert_eq!(sums.len(), 2);
    assert_eq!(floats(&sums[0].doubles), s1.0);
    assert_eq!(sums[0].integers, s1.1);
    assert_eq!(sums[0].name, s1.2);
    assert_eq!(floats(&sums[1].doubles), s2.0);
    assert_eq!(sums[1].integers, s2.1);
    assert_eq!(sums[1].name, s2.2);
}

#[test]
fn summary_strips_trailing_space_padding() {
    let all = build_daf(
        b"DAF/SPK ",
        2,
        6,
        &[(vec![0.0, 1.0], vec![0; 6], "SUN WRT SSB".to_string())],
        &[],
    );
    let daf = DafFile::from_bytes(all).expect("open");
    let sums = daf.summaries().expect("summaries");
    assert_eq!(sums[0].name, "SUN WRT SSB");
}

#[test]
fn summary_strips_trailing_nul_padding() {
    let mut record3 = vec![b' '; RECORD_BYTES];
    let slot_bytes = (2 + 6_usize.div_ceil(2)) * DOUBLE_BYTES;
    for b in &mut record3[..slot_bytes] {
        *b = 0;
    }
    record3[..6].copy_from_slice(b"SATURN");

    let mut record1 = vec![0u8; RECORD_BYTES];
    record1[0..8].copy_from_slice(b"DAF/SPK ");
    record1[8..12].copy_from_slice(&2u32.to_le_bytes());
    record1[12..16].copy_from_slice(&6u32.to_le_bytes());
    record1[76..80].copy_from_slice(&2u32.to_le_bytes());
    record1[80..84].copy_from_slice(&2u32.to_le_bytes());
    record1[88..96].copy_from_slice(b"LTL-IEEE");

    let mut record2 = vec![0u8; RECORD_BYTES];
    record2[0..8].copy_from_slice(&0.0f64.to_le_bytes());
    record2[8..16].copy_from_slice(&0.0f64.to_le_bytes());
    record2[16..24].copy_from_slice(&1.0f64.to_le_bytes());

    let mut all = Vec::new();
    all.extend_from_slice(&record1);
    all.extend_from_slice(&record2);
    all.extend_from_slice(&record3);

    let daf = DafFile::from_bytes(all).expect("open");
    let sums = daf.summaries().expect("summaries");
    assert_eq!(sums[0].name, "SATURN");
}

#[test]
fn read_doubles_recovers_payload_words() {
    let payload: Vec<f64> = (0..8).map(|i| i as f64 * 0.5).collect();
    let all = build_daf(
        b"DAF/SPK ",
        2,
        6,
        &[(vec![0.0, 1.0], vec![0; 6], "DATA".to_string())],
        &payload,
    );
    let daf = DafFile::from_bytes(all).expect("open");
    let start = 1 + 3 * (RECORD_BYTES / DOUBLE_BYTES) as u32;
    let got = daf.read_doubles(start, start + 7).expect("read");
    assert_eq!(floats(&got), payload);

    let got_n = daf.read_n_doubles(start, payload.len()).expect("read_n");
    assert_eq!(floats(&got_n), payload);

    assert!(daf.read_n_doubles(start, 0).unwrap().is_empty());
}

#[test]
fn read_doubles_returns_bounds_error_past_end() {
    let all = build_daf(
        b"DAF/SPK ",
        2,
        6,
        &[(vec![0.0, 1.0], vec![0; 6], "X".to_string())],
        &[1.0, 2.0],
    );
    let len = all.len();
    let daf = DafFile::from_bytes(all).expect("open");
    let past = (len / DOUBLE_BYTES) as u32 + 10;
    let err = daf.read_doubles(past, past + 1).unwrap_err();
    assert!(matches!(err, DafError::AddressOutOfBounds { .. }));

    let err0 = daf.read_doubles(0, 1).unwrap_err();
    assert!(matches!(err0, DafError::AddressOutOfBounds { .. }));

    let err_inv = daf.read_doubles(10, 5).unwrap_err();
    assert!(matches!(err_inv, DafError::AddressOutOfBounds { .. }));
}

#[test]
fn double_slice_is_zero_copy_and_byte_aligned() {
    let payload: Vec<f64> = vec![std::f64::consts::PI, std::f64::consts::E, 42.0];
    let all = build_daf(
        b"DAF/SPK ",
        2,
        6,
        &[(vec![0.0, 1.0], vec![0; 6], "X".to_string())],
        &payload,
    );
    let daf = DafFile::from_bytes(all).expect("open");
    let start = 1 + 3 * (RECORD_BYTES / DOUBLE_BYTES) as u32;
    let slice = daf.double_slice(start, start + 2).expect("slice");
    assert_eq!(slice.len(), payload.len() * DOUBLE_BYTES);
    let x0 = f64::from_le_bytes(slice[0..8].try_into().unwrap());
    let x1 = f64::from_le_bytes(slice[8..16].try_into().unwrap());
    assert_eq!(x0, payload[0]);
    assert_eq!(x1, payload[1]);
}

#[test]
fn out_of_bounds_error_reports_range_and_file_size() {
    let all = build_daf(
        b"DAF/SPK ",
        2,
        6,
        &[(vec![0.0, 1.0], vec![0; 6], "X".to_string())],
        &[1.0],
    );
    let daf = DafFile::from_bytes(all).expect("open");
    match daf.read_doubles(700, 800) {
        Err(DafError::AddressOutOfBounds { start, end, file_doubles }) => {
            assert_eq!(start, 700);
            assert_eq!(end, 800);
            assert_eq!(file_doubles, 512);
        }
        other => panic!("expected AddressOutOfBounds, got {other:?}"),
    }
}

#[test]
fn summary_chain_follows_forward_pointer() {
    // Two summary records: record 2 points to record 4, which holds the
    // second summary (its names are in record 5).
    let mut all = build_daf(
        b"DAF/SPK ",
        2,
        6,
        &[(vec![0.0, 1.0], vec![1, 0, 1, 2, 0, 0], "FIRST".to_string())],
        &[],
    );
    all[1024..1032].copy_from_slice(&4.0f64.to_le_bytes());
    let mut record4 = vec![0u8; RECORD_BYTES];
    record4[16..24].copy_from_slice(&1.0f64.to_le_bytes());
    record4[24..32].copy_from_slice(&5.0f64.to_le_bytes());
    record4[32..40].copy_from_slice(&6.0f64.to_le_bytes());
    record4[40..44].copy_from_slice(&7i32.to_le_bytes());
    let mut record5 = vec![b' '; RECORD_BYTES];
    record5[..6].copy_from_slice(b"SECOND");
    all.extend_from_slice(&record4);
    all.extend_from_slice(&record5);
    let daf = DafFile::from_bytes(all).expect("open");
    let sums = daf.summaries().expect("summaries");
    assert_eq!(sums.len(), 2);
    assert_eq!(sums[0].name, "FIRST");
    assert_eq!(sums[1].name, "SECOND");
    assert_eq!(floats(&sums[1].doubles), vec![5.0, 6.0]);
    assert_eq!(sums[1].integers[0], 7);
}

#[test]
fn summary_record_past_end_is_reported() {
    let mut all = build_daf(
        b"DAF/SPK ",
        2,
        6,
        &[(vec![0.0, 1.0], vec![0; 6], "X".to_string())],
        &[],
    );
    // Point the first summary record beyond the file.
    all[76..80].copy_from_slice(&9u32.to_le_bytes());
    let daf = DafFile::from_bytes(all).expect("open");
    match daf.summaries() {
        Err(DafError::BadSummary { record, reason }) => {
            assert_eq!(record, 9);
            assert_eq!(reason, "record extends past end of file");
        }
        other => panic!("expected BadSummary, got {other:?}"),
    }
}

#[test]
fn cyclic_summary_chain_is_refused() {
    let mut all = build_daf(
        b"DAF/SPK ",
        2,
        6,
        &[(vec![0.0, 1.0], vec![1, 0, 1, 2, 0, 0], "LOOP".to_string())],
        &[],
    );
    // Record 2 points back at itself.
    all[1024..1032].copy_from_slice(&2.0f64.to_le_bytes());
    let daf = DafFile::from_bytes(all).expect("open");
    match daf.summaries() {
        Err(DafError::BadSummary { record, reason }) => {
            assert_eq!(record, 2);
            assert_eq!(reason, "summary record chain does not end");
        }
        other => panic!("expected BadSummary, got {other:?}"),
    }
}

#[test]
fn load_step_skips_loaded_files_and_follows_the_kind() {
    assert_eq!(load_step(true, KernelKind::Spk), LoadStep::AlreadyLoaded);
    assert_eq!(load_step(false, kernel_kind(b"DAF/SPK ")), LoadStep::OpenSpk);
    assert_eq!(load_step(false, kernel_kind(b"DAF/PCK ")), LoadStep::OpenPck);
    assert_eq!(load_step(false, kernel_kind(b"KPL/LSK")), LoadStep::ParseText);
}
