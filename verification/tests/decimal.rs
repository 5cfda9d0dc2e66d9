//! Decimal text, held against what the standard library reads and writes.
use brutal_quic::binary64::Binary64;
use brutal_quic::decimal::{format_number, parse_number};

fn agrees(s: &str) {
    let expected: Option<f64> = s.parse().ok();
    let found = parse_number(s).map(|x| f64::from_bits(x.to_bits()));
    match (expected, found) {
        (None, None) => {}
        (Some(a), Some(b)) => {
            assert!(a.to_bits() == b.to_bits() || (a.is_nan() && b.is_nan()), "{s}: {a:e} {b:e}");
        }
        _ => panic!("{s}: {expected:?} {found:?}"),
    }
}

#[test]
fn numbers_are_read_as_the_standard_library_reads_them() {
    for s in [
        "0", "-0", "+0", "1", "-1", "+1", "1.5", ".5", "5.", ".", "", "+", "-", "e5", ".e5", "1e5",
        "1E5", "1e+5", "1e-5", "1e", "1e+", "1.2.3", "1e5e5", "1e5.0", " 1", "1 ", "1_0", "0x10",
        "inf", "INF", "-inf", "+Infinity", "infinit", "infinityy", "nan", "NaN", "-nan", "nank",
        "1e308", "1.7976931348623157e308", "1.7976931348623159e308", "1.8e308", "1e309", "1e400",
        "1e99999999999999999999999999999999999999999", "1e-99999999999999999999999999999999999",
        "-1e99999999999999999999999999999999999999999", "0e99999999999999999999999999999999999",
        "4.9e-324", "2.4703282292062327e-324", "2.4703282292062328e-324", "2.47e-324", "1e-400",
        "2.2250738585072011e-308", "2.2250738585072014e-308", "9007199254740993",
        "9007199254740992.9999999999999999999999", "9007199254740993.0000000000000000000001",
        "0.1", "0.2", "0.3", "0.8", "123456789012345678901234567890", "1e23", "8.41e21",
        "\u{0661}", "1\u{e9}", "00000000000000000000000000000000000001", "0.000000000000000000001e21",
    ] {
        agrees(s);
    }
}

#[test]
fn digits_far_behind_the_point_still_count() {
    let tie = "9007199254740993";
    agrees(&format!("{tie}.{}", "0".repeat(500)));
    agrees(&format!("{tie}.{}1", "0".repeat(500)));
    agrees(&format!("0.{}1e1000", "0".repeat(999)));
    agrees(&format!("1{}e-1000", "0".repeat(1000)));
}

/// Bit patterns from a fixed linear congruential sequence.
fn draw(state: &mut u64) -> u64 {
    *state = state.wrapping_mul(6364136223846793005).wrapping_add(1442695040888963407);
    *state ^ (*state >> 29)
}

#[test]
fn drawn_numbers_are_read_as_the_standard_library_reads_them() {
    let mut state = 3;
    for _ in 0..60 {
        let x = f64::from_bits(draw(&mut state) & 0x7fff_ffff_ffff_ffff);
        if x.is_finite() {
            agrees(&format!("{x:e}"));
            agrees(&format!("{x:.25e}"));
        }
        let y = (draw(&mut state) >> 20) as f64 / 1000.0;
        agrees(&format!("{y}"));
    }
}

fn shown(x: f64) {
    assert_eq!(format_number(Binary64::from_bits(x.to_bits())), format!("{x}"));
}

#[test]
fn numbers_are_shown_as_the_standard_library_shows_them() {
    for x in [
        0.0, -0.0, 1.0, -1.0, 1.5, -1.5, 0.1, -0.1, 0.3, 100.0, -1024.0, 123456789.125, 1e21, 1e22,
        1e23, 9.5, 0.95, 9007199254740991.0, 9007199254740992.0, 9007199254740994.0, 1e-7, 5e-324,
        2.2250738585072014e-308, 1.7976931348623157e308, f64::INFINITY, f64::NEG_INFINITY, f64::NAN,
        5.684341886080802e-14, 2.0f64.powi(-44), 2.0f64.powi(89), -2.0f64.powi(-1074),
    ] {
        shown(x);
    }
}

#[test]
fn of_two_equally_near_decimals_the_greater_one_is_shown() {
    shown(1125899906842624.25);
    shown(1125899906842624.75);
    shown(2251799813685248.25);
}

#[test]
fn drawn_numbers_are_shown_as_the_standard_library_shows_them() {
    let mut state = 5;
    for _ in 0..20 {
        let bits = 0x3c00_0000_0000_0000 + draw(&mut state) % 0x0800_0000_0000_0000;
        shown(f64::from_bits(bits));
        shown(-((draw(&mut state) >> 30) as f64) / 100.0);
    }
}
