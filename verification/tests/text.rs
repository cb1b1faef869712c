use qtx_float::parse::negation_overflows_in;
use qtx_float::Float;

#[test]
fn reading_text() {
    assert_eq!(Float::from_str("  +1.5 \n"), Some(Float::new(15, 1)));
    assert_eq!(Float::from_str("0.05"), Some(Float::new(5, 2)));
    assert_eq!(Float::from_str("-0.05"), Some(Float::new(-5, 2)));
    assert_eq!(Float::from_str(".5"), Some(Float::new(5, 1)));
    assert_eq!(Float::from_str("5."), Some(Float::new(5, 0)));
    assert_eq!(Float::from_str("0."), Some(Float::new(0, 0)));
    assert_eq!(Float::from_str("00.5"), Some(Float::new(5, 1)));
    assert_eq!(Float::from_str("-12.340"), Some(Float::new(-12340, 3)));
    assert_eq!(Float::from_str("\u{3000}7\u{a0}"), Some(Float::new(7, 0)));
    assert_eq!(Float::from_str("--5"), Some(Float::new(5, 0)));
    assert_eq!(Float::from_str("-9223372036854775808"), None);
    assert_eq!(Float::from_str("9223372036854775807"), Some(Float::new(i64::MAX, 0)));
}

#[test]
fn refusing_text() {
    assert_eq!(Float::from_str(""), None);
    assert_eq!(Float::from_str("   "), None);
    assert_eq!(Float::from_str("-"), None);
    assert_eq!(Float::from_str("+"), None);
    assert_eq!(Float::from_str("."), None);
    assert_eq!(Float::from_str("1.2.3"), None);
    assert_eq!(Float::from_str("abc"), None);
    assert_eq!(Float::from_str("1 2"), None);
    assert_eq!(Float::from_str("1.-5"), None);
    assert_eq!(Float::from_str("12345678901234.567890123456"), None);
    assert_eq!(Float::from_str("9223372036854775808"), None);
}

#[test]
fn negated_minimum_is_recognised() {
    assert!(negation_overflows_in("--9223372036854775808"));
    assert!(!negation_overflows_in("-9223372036854775808"));
    assert!(!negation_overflows_in("1.5"));
}

#[test]
fn long_fractions_wrap_the_scale() {
    let zeros = "0".repeat(199);
    let text = format!("0.{}1", zeros);
    assert_eq!(Float::from_str(&text), Some(Float::new(1, -56)));
}

#[test]
fn writing_text() {
    assert_eq!(Float::new(150050, 2).to_decimal_string(), "1500.50");
    assert_eq!(Float::new(5000, 0).to_decimal_string(), "5000");
    assert_eq!(Float::new(1550, 2).to_decimal_string(), "15.50");
    assert_eq!(Float::new(-1234, 2).to_decimal_string(), "-12.34");
    assert_eq!(Float::new(5, 3).to_decimal_string(), "0.005");
    assert_eq!(Float::new(-5, 1).to_decimal_string(), "-0.5");
    assert_eq!(Float::new(-5, 3).to_decimal_string(), "-0.005");
    assert_eq!(Float::new(-100, 2).to_decimal_string(), "-1.00");
    assert_eq!(Float::new(5, -2).to_decimal_string(), "5");
    assert_eq!(Float::new(i64::MIN, 0).to_decimal_string(), "-9223372036854775808");
    assert_eq!(Float::new(i64::MIN, 18).to_decimal_string(), "-9.223372036854775808");
}

#[test]
fn writing_small_numbers_at_large_scales() {
    assert_eq!(Float::new(1, 20).to_decimal_string(), "0.00000000000000000001");
    assert_eq!(Float::new(-25, 19).to_decimal_string(), "-0.0000000000000000025");
    assert_eq!(
        Float::from_str("0.00000000000000000001"),
        Some(Float::new(1, 20))
    );
}

#[test]
fn text_reads_back() {
    for f in [
        Float::new(150050, 2),
        Float::new(0, 0),
        Float::new(-1234, 2),
        Float::new(5, 3),
        Float::new(i64::MAX, 18),
        Float::new(i64::MIN + 1, 0),
        Float::new(-100, 2),
        Float::new(-5, 1),
        Float::new(-7, 18),
        Float::new(1, 20),
        Float::new(-i64::MAX, 127),
    ] {
        assert_eq!(Float::from_str(&f.to_decimal_string()), Some(f));
    }
}
