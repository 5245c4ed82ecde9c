use spicekit::bindings::{normalize_body_name, resolve_body_code};
use spicekit::naif_ids::NaifIdError;
use spicekit::text_kernel::{parse_body_bindings_from_str, BodyBinding};

/// Kernels in load order, each with its bindings; lookups see the
/// concatenation.
struct Loaded(Vec<(String, Vec<BodyBinding>)>);

impl Loaded {
    fn furnsh(&mut self, id: &str, text: &str) {
        let bindings = parse_body_bindings_from_str(text).unwrap();
        self.0.push((id.to_string(), bindings));
    }
    fn unload(&mut self, id: &str) {
        self.0.retain(|(k, _)| k != id);
    }
    fn bodn2c(&self, name: &str) -> Result<i32, NaifIdError> {
        let all: Vec<BodyBinding> = self.0.iter().flat_map(|(_, b)| b.iter().cloned()).collect();
        resolve_body_code(&all, name)
    }
}

#[test]
fn text_kernel_pickup_and_unload() {
    let mut b = Loaded(Vec::new());
    assert!(matches!(b.bodn2c("ADAM_PROBE"), Err(NaifIdError::UnknownName(_))));
    b.furnsh(
        "custom_names.tk",
        "KPL/FK\n\\begindata\nNAIF_BODY_NAME += ( 'ADAM_PROBE', 'APROBE' )\nNAIF_BODY_CODE += ( -900001, -900001 )\n\\begintext\n",
    );
    assert_eq!(b.bodn2c("ADAM_PROBE").unwrap(), -900001);
    assert_eq!(b.bodn2c("APROBE").unwrap(), -900001);
    b.unload("custom_names.tk");
    assert!(matches!(b.bodn2c("ADAM_PROBE"), Err(NaifIdError::UnknownName(_))));
}

#[test]
fn text_kernel_last_loaded_wins() {
    let mut b = Loaded(Vec::new());
    b.furnsh(
        "first.tk",
        "\\begindata\nNAIF_BODY_NAME += ( 'OVERRIDE_ME' )\nNAIF_BODY_CODE += ( -1 )\n\\begintext\n",
    );
    assert_eq!(b.bodn2c("OVERRIDE_ME").unwrap(), -1);
    b.furnsh(
        "second.tk",
        "\\begindata\nNAIF_BODY_NAME += ( 'OVERRIDE_ME' )\nNAIF_BODY_CODE += ( -2 )\n\\begintext\n",
    );
    assert_eq!(b.bodn2c("OVERRIDE_ME").unwrap(), -2);
    b.unload("second.tk");
    assert_eq!(b.bodn2c("OVERRIDE_ME").unwrap(), -1);
}

#[test]
fn text_kernel_overrides_builtin() {
    let mut b = Loaded(Vec::new());
    assert_eq!(b.bodn2c("EARTH").unwrap(), 399);
    b.furnsh(
        "shadow.tk",
        "\\begindata\nNAIF_BODY_NAME += ( 'EARTH' )\nNAIF_BODY_CODE += ( -9999 )\n\\begintext\n",
    );
    assert_eq!(b.bodn2c("EARTH").unwrap(), -9999);
    b.unload("shadow.tk");
    assert_eq!(b.bodn2c("EARTH").unwrap(), 399);
}

#[test]
fn unknown_bodn2c_is_not_covered() {
    let b = Loaded(Vec::new());
    match b.bodn2c("NOT-A-NAIF-NAME") {
        Err(NaifIdError::UnknownName(s)) => assert_eq!(s, "NOT-A-NAIF-NAME"),
        other => panic!("expected UnknownName, got {other:?}"),
    }
}

#[test]
fn body_name_key_collapses_whitespace_but_not_underscores() {
    assert_eq!(normalize_body_name("  adam \t probe  "), "ADAM PROBE");
    assert_eq!(normalize_body_name("adam_probe"), "ADAM_PROBE");
    assert_eq!(normalize_body_name(""), "");
    assert_eq!(normalize_body_name("   "), "");
    // A binding matches case- and spacing-insensitively.
    let bindings = vec![BodyBinding { name: "Adam  Probe".to_string(), code: -5 }];
    assert_eq!(resolve_body_code(&bindings, "ADAM PROBE").unwrap(), -5);
    // Underscores matter for bindings; the built-in table treats them as spaces.
    assert!(resolve_body_code(&bindings, "ADAM_PROBE").is_err());
    assert_eq!(resolve_body_code(&bindings, "earth_moon_barycenter").unwrap(), 3);
}

#[test]
fn later_binding_in_one_kernel_wins() {
    let bindings = vec![
        BodyBinding { name: "X".to_string(), code: 1 },
        BodyBinding { name: "Y".to_string(), code: 2 },
        BodyBinding { name: "x".to_string(), code: 3 },
    ];
    assert_eq!(resolve_body_code(&bindings, "X").unwrap(), 3);
    assert_eq!(resolve_body_code(&bindings, "y").unwrap(), 2);
}
