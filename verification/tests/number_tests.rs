use thethacore::number::{is_float, parse_integer, push_decimal};

fn digits(s: &str) -> Vec<char> {
    s.chars().collect()
}

#[test]
fn integers_are_read() {
    assert_eq!(parse_integer(&digits("0")), Some(0));
    assert_eq!(parse_integer(&digits("-0")), Some(0));
    assert_eq!(parse_integer(&digits("42")), Some(42));
    assert_eq!(parse_integer(&digits("-7")), Some(-7));
    assert_eq!(parse_integer(&digits("0042")), Some(42));
    assert_eq!(parse_integer(&digits("1234567890123")), Some(1234567890123));
    assert_eq!(parse_integer(&digits("9223372036854775807")), Some(i64::MAX));
    assert_eq!(parse_integer(&digits("-9223372036854775808")), Some(i64::MIN));
    assert_eq!(
        parse_integer(&digits("000000000000000000009223372036854775807")),
        Some(i64::MAX)
    );
}

#[test]
fn what_is_no_integer() {
    for sample in [
        "", "-", "+", "+1", "--1", "1-", "1.0", "1e3", " 1", "1 ", "0x1", "1_000", "a", "٣",
        "9223372036854775808", "-9223372036854775809", "99999999999999999999999999",
        "-99999999999999999999999999", "12a", "9223372036854775808x",
    ] {
        assert_eq!(parse_integer(&digits(sample)), None, "{:?}", sample);
    }
}

#[test]
fn integers_agree_with_the_standard_library() {
    for sample in [
        "0", "1", "-1", "10", "-10", "123", "00", "-00", "9223372036854775806",
        "9223372036854775807", "9223372036854775808", "-9223372036854775807",
        "-9223372036854775808", "-9223372036854775809", "18446744073709551616", "", "-", "x", "1x",
        "1.5", "- 1",
    ] {
        assert_eq!(parse_integer(&digits(sample)), sample.parse::<i64>().ok(), "{:?}", sample);
    }
}

#[test]
fn float_spellings_agree_with_the_standard_library() {
    for sample in [
        "0", "1", "-1", "+1", "1.0", "1.", ".1", "-.1", "+.1", ".", "-", "+", "", "1e1", "1E1",
        "1e+1", "1e-1", "1e", "1e+", "1e-", "e1", ".e1", "1.e1", ".1e1", "1.1e1", "1.1.1", "1e1.1",
        "1e1e1", "inf", "INF", "Inf", "-inf", "+inf", "infinity", "INFINITY", "-Infinity",
        "infinit", "infinityx", "nan", "NaN", "-nan", "+NAN", "nane", "in", "na", "1f", "1f64",
        "0x1p3", "1_0", " 1", "1 ", "1,5", "٣", "123456789012345678901234567890",
        "1e99999999999999999999", "0.00000000000000000000000000000000000000001", "--1", "+-1",
        "1..", "..1", "1.e", "1.e+", "e", "E", "+e1", "-.", "+.", ".-1", "1-1", "i", "n",
    ] {
        assert_eq!(is_float(&digits(sample)), sample.parse::<f64>().is_ok(), "{:?}", sample);
    }
}

#[test]
fn decimal_digits_are_written() {
    for n in [0usize, 1, 9, 10, 11, 99, 100, 101, 1234567890, usize::MAX] {
        let mut out = String::from("n=");
        push_decimal(&mut out, n);
        assert_eq!(out, format!("n={}", n));
    }
}
