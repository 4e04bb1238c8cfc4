use http_range::{ByteRange, Error, StatusCode};

#[test]
fn byte_range_start_end() -> Result<(), Error> {
    let range = ByteRange::from_str("1-5")?;
    assert_eq!(range, ByteRange::new(Some(1), Some(5)));
    Ok(())
}

#[test]
fn byte_range_start_no_end() -> Result<(), Error> {
    let range = ByteRange::from_str("1-")?;
    assert_eq!(range, ByteRange::new(Some(1), None));
    Ok(())
}

#[test]
fn byte_range_no_start_end() -> Result<(), Error> {
    let range = ByteRange::from_str("-5")?;
    assert_eq!(range, ByteRange::new(None, Some(5)));
    Ok(())
}

#[test]
#[should_panic(expected = "Invalid Range header for byte ranges")]
fn byte_range_no_start_no_end() {
    ByteRange::from_str("-").unwrap();
}

#[test]
#[should_panic(expected = "Invalid Range header for byte ranges")]
fn byte_range_start_after_end() {
    ByteRange::from_str("3-1").unwrap();
}

#[test]
#[should_panic(expected = "Invalid Range header for byte ranges")]
fn byte_range_invalid_integer() {
    ByteRange::from_str("abc-5").unwrap();
}

#[test]
fn byte_range_match_size() {
    let range = ByteRange::new(Some(0), Some(4));
    assert_eq!(range.match_size(5), true);
}

#[test]
fn byte_range_not_match_size() {
    let range = ByteRange::new(Some(0), Some(4));
    assert_eq!(range.match_size(3), false);
}

#[test]
fn byte_range_not_match_size_start() {
    let range = ByteRange::new(Some(4), None);
    assert_eq!(range.match_size(4), false);
}

#[test]
fn byte_range_not_match_size_end() {
    let range = ByteRange::new(None, Some(5));
    assert_eq!(range.match_size(5), false);
}

#[test]
fn byte_range_match_size_at_the_boundary() {
    assert_eq!(ByteRange::new(Some(0), Some(4)).match_size(5), true);
    assert_eq!(ByteRange::new(Some(0), Some(4)).match_size(4), false);
    assert_eq!(ByteRange::new(Some(4), None).match_size(4), false);
    assert_eq!(ByteRange::new(Some(4), None).match_size(5), true);
    assert_eq!(ByteRange::new(None, Some(5)).match_size(6), true);
    assert_eq!(ByteRange::new(Some(0), None).match_size(0), false);
    assert_eq!(ByteRange::new(None, None).match_size(0), true);
    assert_eq!(ByteRange::new(Some(u64::MAX - 1), None).match_size(u64::MAX), true);
    assert_eq!(ByteRange::new(Some(u64::MAX), None).match_size(u64::MAX), false);
}

#[test]
fn byte_range_errors_carry_status_and_message() {
    let wires = ["", "-", " ", "3-1", "0-0", "5-5", "abc-5", "1-x", "1--5", "-1-5", "1 - 5", "1,5"];
    for wire in wires {
        let err = ByteRange::from_str(wire).unwrap_err();
        assert_eq!(err.status(), StatusCode::RequestedRangeNotSatisfiable, "{wire:?}");
        assert_eq!(err.status().code(), 416);
        assert_eq!(err.message(), "Invalid Range header for byte ranges");
        assert_eq!(err.to_string(), "Invalid Range header for byte ranges");
    }
}

#[test]
fn byte_range_numbers() {
    assert_eq!(ByteRange::from_str("0-1"), Ok(ByteRange::new(Some(0), Some(1))));
    assert_eq!(ByteRange::from_str("007-010"), Ok(ByteRange::new(Some(7), Some(10))));
    assert_eq!(ByteRange::from_str("+1-+5"), Ok(ByteRange::new(Some(1), Some(5))));
    assert_eq!(
        ByteRange::from_str("0-18446744073709551615"),
        Ok(ByteRange::new(Some(0), Some(u64::MAX)))
    );
    assert!(ByteRange::from_str("0-18446744073709551616").is_err());
    assert!(ByteRange::from_str("99999999999999999999-").is_err());
    assert!(ByteRange::from_str("+-5").is_err());
    assert!(ByteRange::from_str("1-+").is_err());
    assert!(ByteRange::from_str("１-5").is_err());
}

#[test]
fn byte_range_whitespace_and_missing_dash() {
    assert_eq!(ByteRange::from_str("  1-5\t"), Ok(ByteRange::new(Some(1), Some(5))));
    assert_eq!(ByteRange::from_str("\u{a0}-5\u{3000}"), Ok(ByteRange::new(None, Some(5))));
    assert_eq!(ByteRange::from_str(" 7 "), Ok(ByteRange::new(Some(7), None)));
    assert!(ByteRange::from_str("1 -5").is_err());
}

#[test]
fn byte_range_to_string() {
    assert_eq!(ByteRange::new(Some(1), Some(5)).to_string(), "1-5");
    assert_eq!(ByteRange::new(Some(1), None).to_string(), "1-");
    assert_eq!(ByteRange::new(None, Some(5)).to_string(), "-5");
    assert_eq!(ByteRange::new(Some(0), Some(u64::MAX)).to_string(), "0-18446744073709551615");
    assert_eq!(ByteRange::new(Some(10), Some(1200)).to_string(), "10-1200");
    assert_eq!(ByteRange::default().to_string(), "-");
}

#[test]
fn byte_range_round_trip() {
    let ranges = [
        ByteRange::new(Some(0), Some(1)),
        ByteRange::new(Some(1), Some(5)),
        ByteRange::new(Some(9), Some(10)),
        ByteRange::new(Some(99), Some(100)),
        ByteRange::new(Some(0), None),
        ByteRange::new(None, Some(0)),
        ByteRange::new(Some(u64::MAX), None),
        ByteRange::new(Some(12345678901234567890), Some(u64::MAX)),
    ];
    for range in ranges {
        let wire = range.to_string();
        assert_eq!(ByteRange::from_str(&wire), Ok(range), "{wire}");
        assert_eq!(ByteRange::from_str(&wire).unwrap().to_string(), wire);
    }
}
