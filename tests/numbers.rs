use logplot::fixed::{clamp_value, parse_decimal, parse_time, scale_value, BOUND, SCALE};

#[test]
fn decimal_whole_and_fraction() {
    assert_eq!(parse_decimal("1.0"), Some(1_000_000));
    assert_eq!(parse_decimal("50"), Some(50_000_000));
    assert_eq!(parse_decimal("-2.5"), Some(-2_500_000));
    assert_eq!(parse_decimal("+0.125"), Some(125_000));
    assert_eq!(parse_decimal(".5"), Some(500_000));
    assert_eq!(parse_decimal("3."), Some(3_000_000));
}

#[test]
fn decimal_drops_digits_past_six() {
    assert_eq!(parse_decimal("0.1234567"), Some(123_456));
    assert_eq!(parse_decimal("1700000000.123456789"), Some(1_700_000_000_123_456));
}

#[test]
fn decimal_rejects_malformed_text() {
    assert_eq!(parse_decimal(""), None);
    assert_eq!(parse_decimal("."), None);
    assert_eq!(parse_decimal("-"), None);
    assert_eq!(parse_decimal("1.2.3"), None);
    assert_eq!(parse_decimal("12a"), None);
    assert_eq!(parse_decimal(" 1"), None);
    assert_eq!(parse_decimal("--1"), None);
}

#[test]
fn decimal_bound_is_the_largest_magnitude() {
    assert_eq!(parse_decimal("1000000000000"), Some(BOUND));
    assert_eq!(parse_decimal("-1000000000000"), Some(-BOUND));
    assert_eq!(parse_decimal("1000000000000.000001"), None);
    assert_eq!(parse_decimal("99999999999999999999999"), None);
}

#[test]
fn time_of_day_format() {
    assert_eq!(parse_time("01:02:03"), Some(3723 * SCALE));
    assert_eq!(parse_time("0:00:01.5"), Some(1_500_000));
    assert_eq!(parse_time("-1:00:00"), Some(-3600 * SCALE));
    assert_eq!(parse_time("+00:01:00"), Some(60 * SCALE));
}

#[test]
fn time_rejects_other_shapes() {
    assert_eq!(parse_time("01:02"), None);
    assert_eq!(parse_time("01:02:03:04"), None);
    assert_eq!(parse_time("aa:02:03"), None);
    assert_eq!(parse_time(""), None);
}

#[test]
fn scaling_by_coefficient() {
    // 2.5 * 1.5 = 3.75
    assert_eq!(scale_value(2_500_000, 1_500_000), 3_750_000);
    // one unit leaves a value as it is
    assert_eq!(scale_value(-42_000_001, SCALE), -42_000_001);
    // rounding goes toward zero
    assert_eq!(scale_value(1, 500_000), 0);
    assert_eq!(scale_value(-3, 500_000), -1);
    // saturates to the range of i64
    assert_eq!(scale_value(BOUND, i64::MAX), i64::MAX);
    assert_eq!(scale_value(-BOUND, i64::MAX), i64::MIN);
}

#[test]
fn clamping_to_range() {
    assert_eq!(clamp_value(5, 0, 10), 5);
    assert_eq!(clamp_value(-5, 0, 10), 0);
    assert_eq!(clamp_value(15, 0, 10), 10);
}

#[test]
fn decimal_with_exponent() {
    assert_eq!(parse_decimal("1e3"), Some(1_000 * SCALE));
    assert_eq!(parse_decimal("1E+2"), Some(100 * SCALE));
    assert_eq!(parse_decimal("2.5e-1"), Some(250_000));
    assert_eq!(parse_decimal("-1.5e2"), Some(-150 * SCALE));
    assert_eq!(parse_decimal("1e-7"), Some(0));
    assert_eq!(parse_decimal("-3e-6"), Some(-3));
    assert_eq!(parse_decimal("0e999999"), Some(0));
    assert_eq!(parse_decimal("1e12"), Some(BOUND));
}

#[test]
fn decimal_exponent_rejections() {
    assert_eq!(parse_decimal("1e13"), None);
    assert_eq!(parse_decimal("1e"), None);
    assert_eq!(parse_decimal("e5"), None);
    assert_eq!(parse_decimal("1e2.5"), None);
    assert_eq!(parse_decimal("1e2e3"), None);
    assert_eq!(parse_decimal("inf"), None);
}

#[test]
fn time_seconds_with_exponent() {
    assert_eq!(parse_time("0:00:1e1"), Some(10 * SCALE));
}
