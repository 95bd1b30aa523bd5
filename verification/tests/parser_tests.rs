use station_stats::parse::parse_ascii_digits;
use station_stats::render::format_tenths;

#[test]
fn parses_negative_value() {
    assert_eq!(parse_ascii_digits(b"-12.3"), -123);
}

#[test]
fn parses_positive_value() {
    assert_eq!(parse_ascii_digits(b"5.0"), 50);
}

#[test]
fn parses_zero() {
    assert_eq!(parse_ascii_digits(b"0.0"), 0);
}

#[test]
fn parses_negative_zero() {
    assert_eq!(parse_ascii_digits(b"-0.0"), 0);
}

#[test]
fn parses_long_value() {
    assert_eq!(parse_ascii_digits(b"12345678.9"), 123456789);
    assert_eq!(parse_ascii_digits(b"-99999999.9"), -999999999);
}

#[test]
fn formats_tenths() {
    assert_eq!(format_tenths(-55), b"-5.5".to_vec());
    assert_eq!(format_tenths(150), b"15.0".to_vec());
    assert_eq!(format_tenths(0), b"0.0".to_vec());
    assert_eq!(format_tenths(-1), b"-0.1".to_vec());
    assert_eq!(format_tenths(1000), b"100.0".to_vec());
}

#[test]
fn round_trip_identity() {
    for s in [&b"-12.3"[..], b"5.0", b"0.0", b"99.9", b"-100.0", b"12345678.9"] {
        let parsed = parse_ascii_digits(s);
        assert_eq!(format_tenths(parsed as i64), s.to_vec());
    }
}

#[test]
fn round_trip_normalizes() {
    assert_eq!(format_tenths(parse_ascii_digits(b"05.0") as i64), b"5.0".to_vec());
    assert_eq!(format_tenths(parse_ascii_digits(b"-0.0") as i64), b"0.0".to_vec());
    assert_eq!(format_tenths(parse_ascii_digits(b"007.5") as i64), b"7.5".to_vec());
}
