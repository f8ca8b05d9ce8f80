use port_authority::duration::{format_duration, format_timestamp, parse_duration, parse_expiration};
use port_authority::timestamp::Timestamp;

const NANOS: i128 = 1_000_000_000;

#[test]
fn parses_combined_duration() {
    let value = parse_duration("2d3h5m", false, false).expect("duration should parse");
    assert_eq!(value, 183_900);
    assert_eq!(format_duration(value), "2d3h5m");
}

#[test]
fn bare_timeout_uses_minutes() {
    let value = parse_duration("24", true, false).expect("duration should parse");
    assert_eq!(value, 1_440);
}

#[test]
fn zero_requires_explicit_permission() {
    assert!(parse_duration("0s", false, false).is_err());
    assert_eq!(parse_duration("0s", false, true).expect("zero should parse"), 0);
}

#[test]
fn absolute_expiration_is_normalized_to_utc() {
    let now = Timestamp { unix_nanos: 0, offset_seconds: 0 };
    let expiration =
        parse_expiration("2026-08-01T12:00:00+05:00", now).expect("expiration should parse");
    assert_eq!(expiration.offset_seconds, 0);
    assert_eq!(
        format_timestamp(expiration).expect("timestamp should format"),
        "2026-08-01T07:00:00Z"
    );
}

#[test]
fn every_unit_has_its_multiplier() {
    assert_eq!(parse_duration("7s", false, false).unwrap(), 7);
    assert_eq!(parse_duration("7m", false, false).unwrap(), 420);
    assert_eq!(parse_duration("7h", false, false).unwrap(), 25_200);
    assert_eq!(parse_duration("7d", false, false).unwrap(), 604_800);
    assert_eq!(parse_duration("7w", false, false).unwrap(), 4_233_600);
    assert_eq!(parse_duration("1w2d3h4m5s", false, false).unwrap(), 788_645);
}

#[test]
fn malformed_durations_are_invalid() {
    for input in ["", "5", "5x", "m", "5m5m", "5m-", "1.5h", " 5m", "18446744073709551616s"] {
        let error = parse_duration(input, false, false).expect_err(input);
        assert_eq!(error.code, "invalid_duration");
        assert_eq!(error.exit_code, 2);
    }
    let error = parse_duration("307445734561825861w", false, false).expect_err("overflow");
    assert_eq!(error.code, "invalid_duration");
    let error = parse_duration("0", true, false).expect_err("zero minutes");
    assert_eq!(error.code, "invalid_duration");
}

#[test]
fn formatting_uses_the_largest_units_first() {
    assert_eq!(format_duration(0), "0s");
    assert_eq!(format_duration(59), "59s");
    assert_eq!(format_duration(120), "2m");
    assert_eq!(format_duration(604_800), "1w");
    assert_eq!(format_duration(788_645), "1w2d3h4m5s");
    assert_eq!(format_duration(777_600), "1w2d");
}

#[test]
fn formatted_durations_parse_back() {
    for seconds in [1_u64, 59, 60, 3_599, 86_400, 788_645, 1_000_000_007, u64::MAX] {
        let text = format_duration(seconds);
        assert_eq!(parse_duration(&text, false, false).unwrap(), seconds);
        assert_eq!(parse_duration(&text, true, false).unwrap(), seconds);
    }
    assert_eq!(parse_duration(&format_duration(0), false, true).unwrap(), 0);
}

#[test]
fn relative_expiration_counts_from_now() {
    let now = Timestamp { unix_nanos: 1_000 * NANOS, offset_seconds: 0 };
    let expiration = parse_expiration("1h", now).expect("relative expiration");
    assert_eq!(expiration.unix_nanos, (1_000 + 3_600) * NANOS);
    assert_eq!(expiration.offset_seconds, 0);
}

#[test]
fn past_and_bare_expirations_are_rejected() {
    let now = Timestamp { unix_nanos: 2_000_000_000 * NANOS, offset_seconds: 0 };
    let error = parse_expiration("2026-08-01T12:00:00Z", now).expect_err("past expiration");
    assert_eq!(error.code, "invalid_duration");
    let error = parse_expiration("30", now).expect_err("bare expiration");
    assert_eq!(error.code, "invalid_duration");
}

#[test]
fn timestamps_format_in_their_own_offset() {
    let instant = Timestamp { unix_nanos: 1_785_585_600 * NANOS, offset_seconds: 0 };
    assert_eq!(format_timestamp(instant).unwrap(), "2026-08-01T12:00:00Z");
    let shifted = Timestamp { unix_nanos: 1_785_585_600 * NANOS, offset_seconds: 5 * 3_600 };
    assert_eq!(format_timestamp(shifted).unwrap(), "2026-08-01T17:00:00+05:00");
}

#[test]
fn timestamps_with_second_offsets_cannot_be_written() {
    let odd = Timestamp { unix_nanos: 1_785_585_600 * NANOS, offset_seconds: 30 };
    let error = format_timestamp(odd).expect_err("offset with seconds");
    assert_eq!(error.code, "timestamp_failed");
    assert_eq!(error.exit_code, 3);
    assert_eq!(error.message, "The offset_second component cannot be formatted into the requested format.");
}
