use grib2pmtiles::geo::{LngLat, LngLatBox};
use grib2pmtiles::number::Number;
use grib2pmtiles::text::{
    before, contains, decimal, join, replace, signed_decimal, sorted_distinct, split, split_once,
    trim,
};

fn number(value: f64) -> Number {
    Number { bits: value.to_bits() }
}

#[test]
fn numbers_compare_like_floats() {
    let values = [
        f64::NEG_INFINITY, -1e300, -1.5, -1.0, -5e-324, -0.0, 0.0, 5e-324, 1.0, 1.5, 1e300,
        f64::INFINITY,
    ];
    for a in values {
        for b in values {
            assert_eq!(number(a).less_than(number(b)), a < b);
            assert_eq!(number(a).equals(number(b)), a == b);
            assert_eq!(f64::from_bits(number(a).min(number(b)).bits), a.min(b));
            assert_eq!(f64::from_bits(number(a).max(number(b)).bits), a.max(b));
            assert_eq!(number(a).no_more_than(number(b)), a <= b);
        }
    }
}

#[test]
fn what_is_no_number_compares_like_a_float() {
    for nan in [f64::NAN, -f64::NAN] {
        assert!(number(nan).not_a_number());
        assert!(!number(nan).equals(number(nan)));
        assert!(number(nan).min(number(nan)).not_a_number());
        for other in [f64::NEG_INFINITY, -1.0, 0.0, f64::INFINITY] {
            assert!(!number(other).not_a_number());
            for (a, b) in [(nan, other), (other, nan)] {
                assert!(!number(a).less_than(number(b)));
                assert!(!number(a).no_more_than(number(b)));
                assert!(!number(a).equals(number(b)));
                assert_eq!(number(a).min(number(b)), number(other));
                assert_eq!(number(a).max(number(b)), number(other));
            }
        }
    }
}

#[test]
fn whole_numbers_are_told_apart() {
    for value in [0.0, -0.0, 1.0, -3.0, 4503599627370497.0, 9007199254740993.0, 1e300] {
        assert!(number(value).integral());
    }
    for value in [0.5, -1.25, 5e-324, 4503599627370495.5, 1e-10] {
        assert!(!number(value).integral());
    }
    for value in [0.0, 1.0, -1.0, 123456789.0, -9007199254740992.0, 9.2e18, -9.2e18] {
        assert_eq!(number(value).to_integer(), value as i64);
    }
    assert_eq!(number(9223372036854775808.0).to_integer(), i64::MAX);
    assert_eq!(number(-9223372036854775808.0).to_integer(), i64::MIN);
    assert!(number(9223372036854775808.0).within_64_bits());
    assert!(!number(9223372036854777856.0).within_64_bits());
}

#[test]
fn boxes_meet_on_their_edges() {
    let corner = |lng, lat| LngLat::new(number(lng), number(lat));
    let cover = |a, b, c, d| LngLatBox::new(corner(a, b), corner(c, d));
    let base = cover(0.0, 0.0, 10.0, 10.0);
    assert!(base.intersects_box(&cover(10.0, 10.0, 20.0, 20.0)));
    assert!(base.intersects_box(&cover(20.0, 5.0, -5.0, 4.0)));
    assert!(!base.intersects_box(&cover(10.5, 0.0, 20.0, 5.0)));
    assert!(!base.intersects_box(&cover(0.0, -3.0, 5.0, -1.0)));
    assert!(!base.intersects_box(&cover(0.0, 0.0, f64::NAN, 5.0)));
}

#[test]
fn texts_are_cut_like_strings() {
    for text in ["", " ", "a", "  a b\t\n", "\u{3000}x\u{a0}", "=a", "a=b=c", "ü,ö,", ","] {
        assert_eq!(trim(text), text.trim());
        assert_eq!(split_once(text, '='), text.split_once('='));
        assert_eq!(split(text, ','), text.split(',').collect::<Vec<_>>());
        assert_eq!(contains(text, "a b"), text.contains("a b"));
        assert!(contains(text, ""));
        for other in ["", "a", "aa", "b", "ü"] {
            assert_eq!(before(text, other), text < other);
        }
    }
    assert_eq!(replace("a{seq}{seq}{s", "{seq}", "7"), "a77{s");
    assert_eq!(replace("aaa", "aa", "b"), "ba");
}

#[test]
fn numerals_are_decimal() {
    for n in [0, 7, 10, 99, 100, u64::MAX] {
        assert_eq!(decimal(n), n.to_string());
    }
    for n in [0, -1, 42, i64::MIN, i64::MAX] {
        assert_eq!(signed_decimal(n), n.to_string());
    }
}

#[test]
fn texts_are_joined_and_ordered() {
    let texts = |items: &[&str]| items.iter().map(|i| i.to_string()).collect::<Vec<_>>();
    assert_eq!(join(&texts(&[]), ", "), "");
    assert_eq!(join(&texts(&["a", "b", "c"]), ", "), "a, b, c");
    assert_eq!(sorted_distinct(&texts(&["b", "a", "b", "", "ab"])), texts(&["", "a", "ab", "b"]));
}
