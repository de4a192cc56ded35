use svg_replace::number::{format_number, parse_number, UNITS_PER_PIXEL};

#[test]
fn a_pixel_is_a_million_units() {
    assert_eq!(UNITS_PER_PIXEL, 1_000_000);
    assert_eq!(parse_number("1"), Some(UNITS_PER_PIXEL));
}

#[test]
fn parses_whole_numbers() {
    assert_eq!(parse_number("400"), Some(400_000_000));
    assert_eq!(parse_number("0"), Some(0));
    assert_eq!(parse_number("00012"), Some(12_000_000));
}

#[test]
fn parses_signs() {
    assert_eq!(parse_number("+3"), Some(3_000_000));
    assert_eq!(parse_number("-12.5"), Some(-12_500_000));
    assert_eq!(parse_number("-0"), Some(0));
}

#[test]
fn parses_fractions() {
    assert_eq!(parse_number("17.438"), Some(17_438_000));
    assert_eq!(parse_number(".5"), Some(500_000));
    assert_eq!(parse_number("5."), Some(5_000_000));
    assert_eq!(parse_number("0.000001"), Some(1));
}

#[test]
fn drops_digits_past_the_sixth() {
    assert_eq!(parse_number("0.1234567"), Some(123_456));
    assert_eq!(parse_number("0.9999999"), Some(999_999));
    assert_eq!(parse_number("-0.0000009"), Some(0));
}

#[test]
fn rejects_what_is_no_decimal() {
    for s in ["", ".", "-", "+", "+-1", "1e3", "1.2.3", " 1", "1 ", "400px", "abc", "inf", "NaN", "1,5", "--1", "٣"] {
        assert_eq!(parse_number(s), None, "{:?}", s);
    }
}

#[test]
fn reads_up_to_the_ends_of_the_range() {
    assert_eq!(parse_number("9223372036854.775807"), Some(i64::MAX));
    assert_eq!(parse_number("9223372036854.775808"), None);
    assert_eq!(parse_number("-9223372036854.775808"), Some(i64::MIN));
    assert_eq!(parse_number("-9223372036854.775809"), None);
    assert_eq!(parse_number("9223372036855"), None);
    assert_eq!(parse_number("99999999999999999999999999999999999999999999"), None);
    assert_eq!(parse_number("0000000000000000000000000000000000000000007"), Some(7_000_000));
}

#[test]
fn writes_whole_numbers_without_a_point() {
    assert_eq!(format_number(400_000_000), "400");
    assert_eq!(format_number(0), "0");
    assert_eq!(format_number(-7_000_000), "-7");
}

#[test]
fn writes_fractions_without_trailing_zeros() {
    assert_eq!(format_number(123_500_000), "123.5");
    assert_eq!(format_number(-500_000), "-0.5");
    assert_eq!(format_number(1), "0.000001");
    assert_eq!(format_number(17_438_000), "17.438");
    assert_eq!(format_number(260_000_010), "260.00001");
}

#[test]
fn writes_the_ends_of_the_range() {
    assert_eq!(format_number(i64::MAX), "9223372036854.775807");
    assert_eq!(format_number(i64::MIN), "-9223372036854.775808");
}

#[test]
fn reading_what_was_written_gives_the_quantity_back() {
    let mut v: i64 = -2_000_003;
    while v < 2_000_003 {
        assert_eq!(parse_number(&format_number(v)), Some(v));
        v += 997;
    }
    for v in [i64::MIN, i64::MIN + 1, -1, 0, 1, 999_999, 1_000_000, 1_000_001, i64::MAX - 1, i64::MAX] {
        assert_eq!(parse_number(&format_number(v)), Some(v));
    }
}
