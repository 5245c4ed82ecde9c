use spicekit::frame::is_inertial;
use spicekit::spice_error::SpiceError;
use spicekit::daf::{kernel_kind, KernelKind};
use spicekit::spk_writer::{type3_records_from_rows, type9_rows_problem};

#[test]
fn inertial_frame_names() {
    assert!(is_inertial("J2000"));
    assert!(is_inertial("ECLIPJ2000"));
    assert!(!is_inertial("ITRF93"));
    assert!(!is_inertial("j2000"));
    assert!(!is_inertial(""));
}

#[test]
fn spice_error_message_joins_short_and_long() {
    let e = SpiceError { short: "SPICE(NOSUCHFILE)".to_string(), long: "The file was not found.".to_string() };
    assert_eq!(e.message(), "SPICE(NOSUCHFILE): The file was not found.");
    let e = SpiceError { short: "SPICE(BADID)".to_string(), long: String::new() };
    assert_eq!(e.message(), "SPICE(BADID)");
}

#[test]
fn rows_split_into_type3_records() {
    // Two rows of 2 + 6 * 2 = 14 doubles.
    let rows: Vec<u64> = (0..28u64).collect();
    let recs = type3_records_from_rows(&rows, 2, 14).unwrap();
    assert_eq!(recs.len(), 2);
    assert_eq!((recs[0].mid, recs[0].radius), (0, 1));
    assert_eq!(recs[0].x, vec![2, 3]);
    assert_eq!(recs[0].vz, vec![12, 13]);
    assert_eq!((recs[1].mid, recs[1].radius), (14, 15));
    assert_eq!(recs[1].y, vec![18, 19]);
    assert_eq!(
        type3_records_from_rows(&rows[..7], 1, 7).unwrap_err(),
        "records_coeffs must have ≥ 2+6 columns (mid, radius, then ≥1 coef per component)"
    );
    assert_eq!(
        type3_records_from_rows(&rows[..9], 1, 9).unwrap_err(),
        "records_coeffs row length - 2 must be a multiple of 6"
    );
}

#[test]
fn kernel_kind_reads_the_idword() {
    assert_eq!(kernel_kind(b"DAF/SPK "), KernelKind::Spk);
    assert_eq!(kernel_kind(b"DAF/PCK "), KernelKind::Pck);
    assert_eq!(kernel_kind(b"DAF/CK  "), KernelKind::Other);
    assert_eq!(kernel_kind(b"DAF/SPK"), KernelKind::Other);
    assert_eq!(kernel_kind(b"KPL/FK\n\\begindata"), KernelKind::Other);
    assert_eq!(kernel_kind(b""), KernelKind::Other);
}

#[test]
fn type9_row_shape_checks() {
    assert_eq!(type9_rows_problem(5, 3, 3), Some("states must have shape (N, 6)"));
    assert_eq!(type9_rows_problem(6, 3, 4), Some("states rows must match epochs length"));
    assert_eq!(type9_rows_problem(6, 4, 4), None);
}
