use tolls::phone::normalize_phone_number;
use tolls::time::parse_rfc3339;

#[test]
fn normalize_formatted_ten_digit() {
    assert_eq!(normalize_phone_number("(555) 123-4567"), "5551234567");
}

#[test]
fn normalize_eleven_digits_leading_one() {
    assert_eq!(normalize_phone_number("15551234567"), "5551234567");
}

#[test]
fn normalize_longer_keeps_last_ten() {
    assert_eq!(normalize_phone_number("9995551234567"), "5551234567");
}

#[test]
fn normalize_short_pads_with_zeroes() {
    assert_eq!(normalize_phone_number("42"), "0000000042");
}

#[test]
fn normalize_no_digits_is_all_zeroes() {
    assert_eq!(normalize_phone_number(""), "0000000000");
    assert_eq!(normalize_phone_number("no digits here"), "0000000000");
}

#[test]
fn normalize_eleven_digits_without_leading_one() {
    // Eleven digits not led by 1: longer than ten, so the last ten stay.
    assert_eq!(normalize_phone_number("25551234567"), "5551234567");
}

#[test]
fn normalize_always_ten_ascii_digits() {
    for raw in ["", "1", "+1 (555) 123-4567", "abc", "123456789012345678"] {
        let n = normalize_phone_number(raw);
        assert_eq!(n.len(), 10);
        assert!(n.chars().all(|c| c.is_ascii_digit()));
    }
}

#[test]
fn normalize_is_idempotent() {
    for raw in ["(555) 123-4567", "15551234567", "9995551234567", "42", ""] {
        let once = normalize_phone_number(raw);
        let twice = normalize_phone_number(&once);
        assert_eq!(once, twice);
    }
}

#[test]
fn parse_utc_timestamp() {
    let t = parse_rfc3339("2023-01-15T10:30:00Z").expect("valid timestamp");
    assert_eq!(t.year, 2023);
    assert_eq!(t.month, 1);
    assert_eq!(t.day, 15);
    assert_eq!(t.hour, 10);
    assert_eq!(t.minute, 30);
    assert_eq!(t.second, 0);
    assert_eq!(t.epoch_seconds, 1673778600);
}

#[test]
fn parse_offset_crosses_midnight() {
    // 00:30 at +02:00 is 22:30 the previous day in UTC.
    let t = parse_rfc3339("2023-01-15T00:30:00+02:00").expect("valid timestamp");
    assert_eq!(t.year, 2023);
    assert_eq!(t.month, 1);
    assert_eq!(t.day, 14);
    assert_eq!(t.hour, 22);
    assert_eq!(t.minute, 30);
}

#[test]
fn parse_negative_offset() {
    let t = parse_rfc3339("2023-06-30T23:10:00-05:00").expect("valid timestamp");
    assert_eq!(t.year, 2023);
    assert_eq!(t.month, 7);
    assert_eq!(t.day, 1);
    assert_eq!(t.hour, 4);
    assert_eq!(t.minute, 10);
}

#[test]
fn parse_fractional_seconds() {
    let t = parse_rfc3339("2023-01-15T10:30:00.123Z").expect("valid timestamp");
    assert_eq!(t.second, 0);
    assert_eq!(t.epoch_seconds, 1673778600);
}

#[test]
fn parse_lowercase_separator_and_zone() {
    assert!(parse_rfc3339("2023-01-15t10:30:00z").is_some());
    assert!(parse_rfc3339("2023-01-15 10:30:00Z").is_some());
}

#[test]
fn parse_leap_day() {
    assert!(parse_rfc3339("2024-02-29T00:00:00Z").is_some());
    assert!(parse_rfc3339("2023-02-29T00:00:00Z").is_none());
}

#[test]
fn parse_rejects_malformed() {
    assert!(parse_rfc3339("").is_none());
    assert!(parse_rfc3339("not a timestamp").is_none());
    assert!(parse_rfc3339("2023-13-01T00:00:00Z").is_none());
    assert!(parse_rfc3339("2023-01-32T00:00:00Z").is_none());
    assert!(parse_rfc3339("2023-01-15T24:00:00Z").is_none());
    assert!(parse_rfc3339("2023-01-15T10:30:00").is_none());
    assert!(parse_rfc3339("2023-01-15T10:30:00+2:00").is_none());
    assert!(parse_rfc3339("2023-01-15T10:30:00.Z").is_none());
}

#[test]
fn weekday_of_known_dates() {
    // 2023-01-15 was a Sunday, 1970-01-01 a Thursday; index 0 is Saturday.
    let sunday = parse_rfc3339("2023-01-15T00:00:00Z").unwrap();
    assert_eq!(sunday.weekday, 1);
    let thursday = parse_rfc3339("1970-01-01T00:00:00Z").unwrap();
    assert_eq!(thursday.weekday, 5);
    assert_eq!(thursday.epoch_seconds, 0);
}

#[test]
fn century_leap_rule() {
    assert!(parse_rfc3339("2000-02-29T12:00:00Z").is_some());
    assert!(parse_rfc3339("1900-02-29T12:00:00Z").is_none());
    assert!(parse_rfc3339("2100-02-29T12:00:00Z").is_none());
}

#[test]
fn supported_year_range_edges() {
    let first = parse_rfc3339("0000-01-01T00:00:00Z").expect("first instant");
    assert_eq!(first.year, 0);
    assert_eq!(first.days, 0);
    let last = parse_rfc3339("9999-12-31T23:59:59Z").expect("last instant");
    assert_eq!(last.year, 9999);
    // Shifting past either edge is rejected rather than wrapped.
    assert!(parse_rfc3339("0000-01-01T00:00:00+00:01").is_none());
    assert!(parse_rfc3339("9999-12-31T23:59:59-00:01").is_none());
}

#[test]
fn half_hour_offset() {
    // 05:30 east of UTC: 06:00 local is 00:30 UTC.
    let t = parse_rfc3339("2023-01-15T06:00:00+05:30").expect("valid timestamp");
    assert_eq!(t.day, 15);
    assert_eq!(t.hour, 0);
    assert_eq!(t.minute, 30);
}

#[test]
fn normalize_ignores_non_ascii_digits() {
    // Only ASCII digits count; anything else is stripped.
    assert_eq!(normalize_phone_number("a5b5c5-123-4567"), "5551234567");
}
