use spicekit::builtin_table::builtin_entries;
use spicekit::naif_ids::{bodc2n, bodn2c, builtin_len, normalize_name, NaifIdError};

#[test]
fn lookup_builtin_names() {
    assert_eq!(bodn2c("EARTH").unwrap(), 399);
    assert_eq!(bodn2c("earth").unwrap(), 399);
    assert_eq!(bodn2c("Earth").unwrap(), 399);
    assert_eq!(bodn2c("SUN").unwrap(), 10);
    assert_eq!(bodn2c("MOON").unwrap(), 301);
}

#[test]
fn origin_codes_names_work() {
    assert_eq!(bodn2c("EARTH_MOON_BARYCENTER").unwrap(), 3);
    assert_eq!(bodn2c("SOLAR_SYSTEM_BARYCENTER").unwrap(), 0);
    assert_eq!(bodn2c("JUPITER_BARYCENTER").unwrap(), 5);
}

#[test]
fn spaces_and_underscores_treated_alike() {
    assert_eq!(bodn2c("EARTH MOON BARYCENTER").unwrap(), 3);
    assert_eq!(bodn2c("EARTH_MOON_BARYCENTER").unwrap(), 3);
    assert_eq!(bodn2c(" earth  moon   barycenter ").unwrap(), 3);
}

#[test]
fn spacecraft_resolve_from_builtin_table() {
    assert_eq!(bodn2c("JWST").unwrap(), -170);
    assert_eq!(bodn2c("JAMES WEBB SPACE TELESCOPE").unwrap(), -170);
    assert_eq!(bodn2c("HST").unwrap(), -48);
    assert_eq!(bodn2c("HUBBLE SPACE TELESCOPE").unwrap(), -48);
}

#[test]
fn reverse_lookup_returns_cspice_canonical() {
    assert_eq!(bodc2n(0).unwrap(), "SOLAR SYSTEM BARYCENTER");
    assert_eq!(bodc2n(4).unwrap(), "MARS BARYCENTER");
    assert_eq!(bodc2n(399).unwrap(), "EARTH");
    assert_eq!(bodc2n(-170).unwrap(), "JAMES WEBB SPACE TELESCOPE");
    assert_eq!(bodc2n(-48).unwrap(), "HST");
}

#[test]
fn reverse_lookup_unknown_code() {
    assert!(matches!(bodc2n(424242), Err(NaifIdError::UnknownCode(_))));
}

#[test]
fn unknown_name_errors() {
    assert!(matches!(
        bodn2c("DEFINITELY_NOT_A_BODY"),
        Err(NaifIdError::UnknownName(_))
    ));
}

#[test]
fn unknown_name_error_keeps_the_original_spelling() {
    match bodn2c("  not a body ") {
        Err(NaifIdError::UnknownName(s)) => assert_eq!(s, "  not a body "),
        other => panic!("unexpected {:?}", other),
    }
}

#[test]
fn normalize_collapses_separators_and_uppercases() {
    assert_eq!(normalize_name(" earth  moon___barycenter "), "EARTH MOON BARYCENTER");
    assert_eq!(normalize_name(""), "");
    assert_eq!(normalize_name("___"), "");
    assert_eq!(normalize_name("a\tb\nc"), "A B C");
    assert_eq!(normalize_name("mars-1"), "MARS-1");
}

#[test]
fn builtin_len_matches_entries() {
    assert_eq!(builtin_len(), builtin_entries().len());
    assert!(builtin_len() > 0);
}

#[test]
fn every_builtin_name_resolves_to_a_code_with_that_name() {
    for &(name, code) in builtin_entries() {
        let got = bodn2c(name).unwrap();
        assert_eq!(got, code, "name {name}");
        let canonical = bodc2n(code).unwrap();
        assert_eq!(bodn2c(canonical).unwrap(), code);
    }
}
