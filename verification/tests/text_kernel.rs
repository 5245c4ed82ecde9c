use spicekit::text_kernel::{
    parse_body_bindings_from_str, parse_text_kernel_from_str, BodyBinding, DeltaAtEntry,
    FrameAssociation, KernelNumber, TextKernelError,
};
use spicekit::text_lex::KernelDate;

fn lsk_kernel() -> &'static str {
    r#"
\begindata

DELTET/DELTA_T_A       =   32.184
DELTET/K               =    1.657D-3
DELTET/EB              =    1.671D-2
DELTET/M               = (  6.239996D0   1.99096871D-7 )

DELTET/DELTA_AT        = ( 10,   @1972-JAN-1
                           11,   @1972-JUL-1
                           12,   @1973-JAN-1 )

\begintext
"#
}

fn num(n: &KernelNumber) -> f64 {
    match n {
        KernelNumber::Int(i) => *i as f64,
        KernelNumber::Decimal(s) => s.parse::<f64>().unwrap(),
    }
}

#[test]
fn parses_simple_jwst_block() {
    let kernel = "KPL/FK\n\n\\begindata\n  NAIF_BODY_NAME += ( 'JWST', 'JAMES WEBB SPACE TELESCOPE' )\n  NAIF_BODY_CODE += ( -170, -170 )\n\\begintext\n";
    let bindings = parse_body_bindings_from_str(kernel).unwrap();
    assert_eq!(bindings.len(), 2);
    assert_eq!(
        bindings[0],
        BodyBinding {
            name: "JWST".into(),
            code: -170
        }
    );
    assert_eq!(
        bindings[1],
        BodyBinding {
            name: "JAMES WEBB SPACE TELESCOPE".into(),
            code: -170,
        }
    );
}

#[test]
fn ignores_comment_sections() {
    let kernel = "Free text preamble.\n   NAIF_BODY_NAME += ( 'IGNORED' )\n   NAIF_BODY_CODE += ( 999 )\n\n\\begindata\n  NAIF_BODY_NAME += ( 'CUSTOM' )\n  NAIF_BODY_CODE += ( -999 )\n\\begintext\n";
    let bindings = parse_body_bindings_from_str(kernel).unwrap();
    assert_eq!(
        bindings,
        vec![BodyBinding {
            name: "CUSTOM".into(),
            code: -999
        }]
    );
}

#[test]
fn supports_scalar_and_equals() {
    let kernel = "\\begindata\n  NAIF_BODY_NAME = 'LONE_BODY'\n  NAIF_BODY_CODE = -42\n\\begintext\n";
    let bindings = parse_body_bindings_from_str(kernel).unwrap();
    assert_eq!(
        bindings,
        vec![BodyBinding {
            name: "LONE_BODY".into(),
            code: -42
        }]
    );
}

#[test]
fn concatenates_multiple_data_blocks() {
    let kernel = "\\begindata\n  NAIF_BODY_NAME += ( 'A' )\n  NAIF_BODY_CODE += ( 1 )\n\\begintext\nfiller\n\\begindata\n  NAIF_BODY_NAME += ( 'B' )\n  NAIF_BODY_CODE += ( 2 )\n\\begintext\n";
    let bindings = parse_body_bindings_from_str(kernel).unwrap();
    assert_eq!(
        bindings,
        vec![
            BodyBinding {
                name: "A".into(),
                code: 1
            },
            BodyBinding {
                name: "B".into(),
                code: 2
            },
        ]
    );
}

#[test]
fn rejects_mismatched_arrays() {
    let kernel = "\\begindata\n  NAIF_BODY_NAME += ( 'A', 'B' )\n  NAIF_BODY_CODE += ( 1 )\n\\begintext\n";
    let err = parse_body_bindings_from_str(kernel).unwrap_err();
    assert!(matches!(
        err,
        TextKernelError::Mismatched { names: 2, codes: 1 }
    ));
}

#[test]
fn handles_double_quotes_and_line_continuations() {
    let kernel = "\\begindata\n   NAIF_BODY_NAME += (\n     \"ALPHA\",\n     \"BETA\"\n   )\n   NAIF_BODY_CODE += (\n     100,\n     200\n   )\n\\begintext\n";
    let bindings = parse_body_bindings_from_str(kernel).unwrap();
    assert_eq!(bindings.len(), 2);
    assert_eq!(bindings[0].name, "ALPHA");
    assert_eq!(bindings[1].code, 200);
}

#[test]
fn ignores_unrelated_assignments_when_supported_content_exists() {
    let kernel = "\\begindata\n  FRAME_FOO = 123\n  OBJECT_MARS_FRAME = 'IAU_MARS'\n  NAIF_BODY_NAME += ( 'ONE' )\n  NAIF_BODY_CODE += ( 1 )\n\\begintext\n";
    let content = parse_text_kernel_from_str(kernel).unwrap();
    assert_eq!(
        content.bindings,
        vec![BodyBinding {
            name: "ONE".into(),
            code: 1
        }]
    );
    assert!(content.frame_associations.is_empty());
}

#[test]
fn no_data_block_returns_empty() {
    let content = parse_text_kernel_from_str("just a comment file").unwrap();
    assert!(content.is_empty());
    assert!(parse_body_bindings_from_str("just a comment file")
        .unwrap()
        .is_empty());
}

#[test]
fn skips_unsupported_assignment_values_before_resuming() {
    let kernel = "\\begindata\n  DESCRIPTION = 'OBJECT_EARTH_FRAME = ITRF93'\n  NAIF_BODY_NAME += ( 'REAL' )\n  NAIF_BODY_CODE += ( 7 )\n\\begintext\n";
    let content = parse_text_kernel_from_str(kernel).unwrap();
    assert!(content.frame_associations.is_empty());
    assert_eq!(content.bindings[0].name, "REAL");
}

#[test]
fn parses_leapseconds_kernel_content() {
    let content = parse_text_kernel_from_str(lsk_kernel()).unwrap();
    let lsk = content.leapseconds.unwrap();
    assert_eq!(num(&lsk.delta_t_a), 32.184);
    assert_eq!(num(&lsk.k), 1.657e-3);
    assert_eq!(num(&lsk.eb), 1.671e-2);
    assert_eq!([num(&lsk.m[0]), num(&lsk.m[1])], [6.239996, 1.99096871e-7]);
    assert_eq!(lsk.delta_at.len(), 3);
    assert_eq!(
        lsk.delta_at[0],
        DeltaAtEntry {
            leap_seconds: 10,
            date: KernelDate {
                year: 1972,
                month: 1,
                day: 1,
            }
        }
    );
    assert_eq!(lsk.delta_at[1].date.month, 7);
}

#[test]
fn body_bindings_shim_tolerates_complete_lsk_content() {
    let kernel = format!(
        "{}\\begindata\nNAIF_BODY_NAME += ( 'EXTRA_BODY' )\nNAIF_BODY_CODE += ( -12345 )\n\\begintext\n",
        lsk_kernel()
    );
    let bindings = parse_body_bindings_from_str(&kernel).unwrap();
    assert_eq!(
        bindings,
        vec![BodyBinding {
            name: "EXTRA_BODY".into(),
            code: -12345
        }]
    );
}

#[test]
fn parses_earth_itrf93_frame_association() {
    let kernel = "KPL/FK\n\\begindata\n  OBJECT_EARTH_FRAME = 'ITRF93'\n\\begintext\n";
    let content = parse_text_kernel_from_str(kernel).unwrap();
    assert_eq!(
        content.frame_associations,
        vec![FrameAssociation {
            body: "EARTH".into(),
            frame: "ITRF93".into(),
        }]
    );
}

#[test]
fn rejects_unsupported_earth_frame_association() {
    let kernel = "KPL/FK\n\\begindata\n  OBJECT_EARTH_FRAME = 'IAU_EARTH'\n\\begintext\n";
    let err = parse_text_kernel_from_str(kernel).unwrap_err();
    assert!(matches!(err, TextKernelError::Parse { .. }));
}

#[test]
fn rejects_delta_at_odd_count() {
    let kernel = "\\begindata\nDELTET/DELTA_T_A=32.184\nDELTET/K=1.657D-3\nDELTET/EB=1.671D-2\nDELTET/M=(6.239996D0 1.99096871D-7)\nDELTET/DELTA_AT=(10 @1972-JAN-1 11)\n\\begintext\n";
    let err = parse_text_kernel_from_str(kernel).unwrap_err();
    assert!(matches!(err, TextKernelError::Parse { .. }));
}

#[test]
fn rejects_delta_at_wrong_type() {
    let kernel = "\\begindata\nDELTET/DELTA_T_A=32.184\nDELTET/K=1.657D-3\nDELTET/EB=1.671D-2\nDELTET/M=(6.239996D0 1.99096871D-7)\nDELTET/DELTA_AT=(10 1972)\n\\begintext\n";
    let err = parse_text_kernel_from_str(kernel).unwrap_err();
    assert!(matches!(err, TextKernelError::Parse { .. }));
}

#[test]
fn rejects_deltet_m_wrong_length() {
    let kernel = "\\begindata\nDELTET/DELTA_T_A=32.184\nDELTET/K=1.657D-3\nDELTET/EB=1.671D-2\nDELTET/M=(6.239996D0)\nDELTET/DELTA_AT=(10 @1972-JAN-1)\n\\begintext\n";
    let err = parse_text_kernel_from_str(kernel).unwrap_err();
    assert!(matches!(err, TextKernelError::Parse { .. }));
}

#[test]
fn rejects_incomplete_deltet_block() {
    let kernel = "\\begindata\nDELTET/DELTA_T_A = 32.184\n\\begintext\n";
    let err = parse_text_kernel_from_str(kernel).unwrap_err();
    assert!(matches!(err, TextKernelError::Parse { .. }));
}

// ---- further cases ---------------------------------------------------------

fn parse_err(kernel: &str) -> (usize, String) {
    match parse_text_kernel_from_str(kernel) {
        Err(TextKernelError::Parse { line, message }) => (line, message),
        other => panic!("expected a parse error, got {other:?}"),
    }
}

#[test]
fn error_messages_and_lines() {
    assert_eq!(
        parse_err("\\begindata\n\nNAIF_BODY_NAME ( 'A' )\n"),
        (3, "expected '=' or '+=' after NAIF_BODY_NAME".to_string())
    );
    assert_eq!(
        parse_err("\\begindata\nnaif_body_code = ( 1 'x' )\n"),
        (2, "NAIF_BODY_CODE expects integers".to_string())
    );
    assert_eq!(
        parse_err("\\begindata\nNAIF_BODY_NAME = ( 'a' 3 )\n"),
        (2, "NAIF_BODY_NAME expects strings".to_string())
    );
    assert_eq!(
        parse_err("\\begindata\nDELTET/K = ( 1 2 )\n"),
        (2, "DELTET/K expects one numeric value".to_string())
    );
    assert_eq!(
        parse_err("\\begindata\nDELTET/M = ( 1 'x' )\n"),
        (2, "DELTET/M expects numeric values".to_string())
    );
    assert_eq!(
        parse_err("\\begindata\nDELTET/DELTA_AT = ( 'x' @1972-JAN-1 )\n"),
        (2, "DELTET/DELTA_AT expects integer leap-second values".to_string())
    );
    assert_eq!(
        parse_err("\\begindata\nOBJECT_EARTH_FRAME = ( 'ITRF93' 'X' )\n"),
        (2, "OBJECT_EARTH_FRAME expects one string".to_string())
    );
    assert_eq!(
        parse_err("\\begindata\n\nDELTET/K = 1\nDELTET/EB = 2\n"),
        (3, "incomplete leapseconds kernel: missing DELTET/DELTA_T_A".to_string())
    );
}

#[test]
fn operator_on_a_later_line_counts_lines() {
    // The assignment's line is the line of the operator.
    assert_eq!(
        parse_err("\\begindata\nDELTET/EB\n\n= 'x'\n"),
        (4, "DELTET/EB expects one numeric value".to_string())
    );
}

#[test]
fn directives_are_case_insensitive_and_doubled_quotes_unescape() {
    let kernel = "\\BeginData\nNAIF_BODY_NAME = 'O''NEIL'\nNAIF_BODY_CODE = +5\n\\BEGINTEXT\nNAIF_BODY_CODE = 6\n";
    let b = parse_body_bindings_from_str(kernel).unwrap();
    assert_eq!(b, vec![BodyBinding { name: "O'NEIL".into(), code: 5 }]);
}

#[test]
fn itrf93_accepts_padding_and_case() {
    let kernel = "\\begindata\nOBJECT_EARTH_FRAME = '  itrf93 '\n";
    let c = parse_text_kernel_from_str(kernel).unwrap();
    assert_eq!(c.frame_associations.len(), 1);
    assert_eq!(c.frame_associations[0].frame, "ITRF93");
}

#[test]
fn integer_codes_outside_i32_are_not_integers() {
    let kernel = "\\begindata\nNAIF_BODY_NAME = 'BIG'\nNAIF_BODY_CODE = 3000000000\n";
    assert!(matches!(
        parse_text_kernel_from_str(kernel),
        Err(TextKernelError::Parse { .. })
    ));
}

#[test]
fn leapseconds_accept_integer_values_and_leap_day_dates() {
    let kernel = "\\begindata\nDELTET/DELTA_T_A = 32\nDELTET/K = 1.657d-3\nDELTET/EB = .5\nDELTET/M = ( 1 2. )\nDELTET/DELTA_AT = ( 37, @2000-feb-29 )\n";
    let lsk = parse_text_kernel_from_str(kernel).unwrap().leapseconds.unwrap();
    assert_eq!(lsk.delta_t_a, KernelNumber::Int(32));
    assert_eq!(lsk.k, KernelNumber::Decimal("1.657E-3".into()));
    assert_eq!(num(&lsk.eb), 0.5);
    assert_eq!(lsk.delta_at[0].date, KernelDate { year: 2000, month: 2, day: 29 });
    // 1900 is not a leap year, so the date is not a date.
    let bad = "\\begindata\nDELTET/DELTA_T_A = 32\nDELTET/K = 1\nDELTET/EB = 1\nDELTET/M = ( 1 2 )\nDELTET/DELTA_AT = ( 37, @1900-FEB-29 )\n";
    assert!(parse_text_kernel_from_str(bad).is_err());
}

#[test]
fn one_binding_keeps_the_quoted_name_and_any_code() {
    for (name, code) in [(" Mixed_Case  name ", -123), ("x", i32::MIN), ("EARTH BARYCENTER", i32::MAX), ("", 0)] {
        let text = format!("\\begindata\nNAIF_BODY_NAME = '{name}'\nNAIF_BODY_CODE = {code}\n");
        let b = parse_body_bindings_from_str(&text).unwrap();
        assert_eq!(b, vec![BodyBinding { name: name.to_string(), code }]);
    }
}

#[test]
fn text_without_a_data_directive_has_no_content() {
    let text = "\\begintext\nNAIF_BODY_NAME = 'A'\nNAIF_BODY_CODE = 1\n\\beginbody\n";
    let c = parse_text_kernel_from_str(text).unwrap();
    assert!(c.bindings.is_empty());
    assert!(c.leapseconds.is_none());
    assert!(c.frame_associations.is_empty());
}
