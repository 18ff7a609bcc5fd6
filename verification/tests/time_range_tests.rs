use vcd2v::time_range::{parse_time_range, parse_u64};

#[test]
fn test_start_time_only() {
    assert_eq!(parse_time_range("1"), Ok((Some(1), None)));
    assert_eq!(parse_time_range("1:"), Ok((Some(1), None)));
}

#[test]
fn test_end_time_only() {
    assert_eq!(parse_time_range(":9"), Ok((None, Some(9))));
}

#[test]
fn test_start_and_end_time() {
    assert_eq!(parse_time_range("1:9"), Ok((Some(1), Some(9))));
}

#[test]
fn test_invalid_range() {
    assert!(parse_time_range("").is_err());
    assert!(parse_time_range("a").is_err());
    assert!(parse_time_range("1:a").is_err());
    assert!(parse_time_range("9:1").is_err());
}

#[test]
fn test_range_error_messages() {
    assert_eq!(parse_time_range("").unwrap_err(), "empty time range");
    assert_eq!(parse_time_range("1:2:3").unwrap_err(), "invalid time range format");
    assert_eq!(parse_time_range("a").unwrap_err(), "invalid digit found in string");
    assert_eq!(
        parse_time_range("9:1").unwrap_err(),
        "invalid time range: start time must be less than end time"
    );
    assert_eq!(
        parse_time_range("5:5").unwrap_err(),
        "invalid time range: start time must be less than end time"
    );
}

#[test]
fn test_parse_u64_values() {
    assert_eq!(parse_u64("0"), Ok(0));
    assert_eq!(parse_u64("105"), Ok(105));
    assert_eq!(parse_u64("18446744073709551615"), Ok(u64::MAX));
}

#[test]
fn test_parse_u64_errors() {
    assert_eq!(parse_u64("").unwrap_err(), "cannot parse integer from empty string");
    assert_eq!(parse_u64("12x").unwrap_err(), "invalid digit found in string");
    assert_eq!(
        parse_u64("18446744073709551616").unwrap_err(),
        "number too large to fit in target type"
    );
}
