use spicekit::count_double::count_to_double_bits;
use spicekit::double_word::{double_le_exec, double_lt_exec, double_to_uint_exec};

fn samples() -> Vec<f64> {
    vec![
        0.0,
        -0.0,
        0.4,
        0.999_999,
        1.0,
        1.5,
        2.0,
        3.7,
        25.0,
        255.5,
        256.0,
        1e9,
        4294967295.0,
        4294967296.0,
        4294967296.9,
        9007199254740993.0,
        1.8446744073709552e19,
        1e300,
        -1.0,
        -1e300,
        f64::INFINITY,
        f64::NEG_INFINITY,
        f64::NAN,
        -f64::NAN,
        f64::MIN_POSITIVE,
        5e-324,
    ]
}

#[test]
fn double_to_uint_matches_as_casts() {
    for x in samples() {
        let bits = x.to_bits();
        assert_eq!(double_to_uint_exec(bits, u32::MAX as u64), x as u32 as u64, "u32 {x}");
        assert_eq!(double_to_uint_exec(bits, u64::MAX), x as u64, "u64 {x}");
        assert_eq!(double_to_uint_exec(bits, u8::MAX as u64), x as u8 as u64, "u8 {x}");
        assert_eq!(double_to_uint_exec(bits, usize::MAX as u64), x as usize as u64, "usize {x}");
    }
}

#[test]
fn double_comparisons_match_f64() {
    for a in samples() {
        for b in samples() {
            assert_eq!(double_lt_exec(a.to_bits(), b.to_bits()), a < b, "{a} < {b}");
            assert_eq!(double_le_exec(a.to_bits(), b.to_bits()), a <= b, "{a} <= {b}");
        }
    }
}

#[test]
fn count_bits_are_the_double_of_the_count() {
    for n in [0u64, 1, 2, 3, 4, 5, 7, 8, 25, 100, 127, 128, 1000, 123_456_789, (1 << 52) - 1, 1 << 52, (1 << 53) - 1] {
        assert_eq!(count_to_double_bits(n), (n as f64).to_bits(), "n = {n}");
    }
}
