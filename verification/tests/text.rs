//! Numbers and texts are written and ordered like the standard library does it.

use clove4apm::float::double::Double;
use clove4apm::text::{comes_before, letters, push_no_place, push_one_place, push_u64, same};

fn one(x: f64) -> String {
    let mut out = String::new();
    push_one_place(&mut out, Double { bits: x.to_bits() }, false);
    out
}

fn signed(x: f64) -> String {
    let mut out = String::new();
    push_one_place(&mut out, Double { bits: x.to_bits() }, true);
    out
}

fn whole(x: f64) -> String {
    let mut out = String::new();
    push_no_place(&mut out, Double { bits: x.to_bits() });
    out
}

#[test]
fn decimals_are_written_like_the_standard_library_does() {
    let mut values: Vec<f64> = vec![
        0.0, -0.0, 0.05, 0.25, 0.35, 0.5, 0.75, 0.95, 0.96, 1.5, 2.5, 3.5, -0.04, -0.5, 9.95, 9.96, 99.99, 18.4, 20.0,
        793.2, 1e15, 1e16, 123456789.25, 1e22, 1e23, 1e100, 1e300, f64::MAX, f64::MIN, f64::INFINITY,
        f64::NEG_INFINITY, f64::NAN, 5e-324, f64::MIN_POSITIVE, 0.1, 0.15, 4503599627370495.5, 4503599627370496.5,
    ];
    for i in 0..2_000u64 {
        values.push(i as f64 / 20.0);
        values.push(i as f64 / 16.0 - 40.0);
        values.push(f64::from_bits(i.wrapping_mul(0x9e37_79b9_7f4a_7c15)));
    }
    for x in values {
        assert_eq!(one(x), format!("{x:.1}"), "{x:?}");
        assert_eq!(signed(x), format!("{x:+.1}"), "{x:?}");
        assert_eq!(whole(x), format!("{x:.0}"), "{x:?}");
    }
}

#[test]
fn a_tie_goes_to_the_even_digit() {
    assert_eq!(one(0.25), "0.2");
    assert_eq!(one(0.75), "0.8");
    assert_eq!(whole(0.5), "0");
    assert_eq!(whole(1.5), "2");
    assert_eq!(signed(18.4), "+18.4");
    assert_eq!(one(-0.04), "-0.0");
}

#[test]
fn integers_are_written_in_decimal() {
    for v in [0u64, 7, 10, 99, 100, 1234567890, u64::MAX] {
        let mut out = String::from("x=");
        push_u64(&mut out, v);
        assert_eq!(out, format!("x={v}"));
    }
}

#[test]
fn texts_are_equal_character_by_character() {
    assert!(same("", ""));
    assert!(same("größe", "größe"));
    assert!(!same("größe", "grösse"));
    assert!(!same("a", "A"));
    assert_eq!(letters("aß€"), vec!['a', 'ß', '€']);
}

#[test]
fn texts_are_ordered_by_code_point() {
    let all = ["", "a", "ab", "b", "B", "ä", "z", "€", "\u{10000}", "a\u{0}"];
    for x in all {
        for y in all {
            assert_eq!(comes_before(x, y), x < y, "{x:?} {y:?}");
        }
    }
}
