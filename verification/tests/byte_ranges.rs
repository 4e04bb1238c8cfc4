use http_range::headers::RANGE;
use http_range::{ByteRange, ByteRanges, Error, Headers, StatusCode};

/// The headers of a fresh request for the given URL.
fn request_headers(_method: &str, _url: &str) -> Headers {
    Headers::new()
}

#[test]
fn byte_ranges_single_range() -> Result<(), Error> {
    let mut req = request_headers("GET", "http://example.com");
    req.insert(RANGE, "bytes=1-5");
    let mut ranges = ByteRanges::from_headers(&req)?.unwrap().into_iter();
    assert_eq!(ranges.len(), 1);
    assert_eq!(ranges.next(), Some(ByteRange::new(Some(1), Some(5))));
    Ok(())
}

#[test]
fn byte_ranges_invalid_unit_prefix() -> Result<(), Error> {
    let mut req = request_headers("GET", "http://example.com");
    req.insert(RANGE, "foo=1-5");
    let ranges = ByteRanges::from_headers(&req)?;
    assert_eq!(ranges, None);
    Ok(())
}

#[test]
fn byte_ranges_multi_range() -> Result<(), Error> {
    let mut req = request_headers("GET", "http://example.com");
    req.insert(RANGE, "bytes=1-5, -5");
    let mut ranges = ByteRanges::from_headers(&req)?.unwrap().into_iter();
    assert_eq!(ranges.len(), 2);
    assert_eq!(ranges.next(), Some(ByteRange::new(Some(1), Some(5))));
    assert_eq!(ranges.next(), Some(ByteRange::new(None, Some(5))));
    Ok(())
}

#[test]
fn byte_ranges_apply_single_range() -> Result<(), Error> {
    let mut ranges = ByteRanges::new();
    ranges.push(Some(1), Some(5));
    let mut req = request_headers("GET", "http://example.com");
    ranges.apply(&mut req);
    assert_eq!(req.last(RANGE).unwrap(), "bytes=1-5");
    Ok(())
}

#[test]
fn byte_ranges_apply_multi_range() -> Result<(), Error> {
    let mut ranges = ByteRanges::new();
    ranges.push(Some(1), Some(5));
    ranges.push(None, Some(5));
    let mut req = request_headers("GET", "http://example.com");
    ranges.apply(&mut req);
    assert_eq!(req.last(RANGE).unwrap(), "bytes=1-5,-5");
    Ok(())
}

#[test]
#[should_panic(expected = "Invalid Range header for byte ranges")]
fn byte_ranges_no_match_size() {
    let ranges = ByteRanges::from_str("bytes=1-5, -10").unwrap();
    ranges.match_size(6).unwrap();
}

#[test]
fn byte_ranges_match_size() {
    let ranges = ByteRanges::from_str("bytes=1-5, -10").unwrap();
    ranges.match_size(11).unwrap();
}

#[test]
fn byte_ranges_match_size_status() {
    let ranges = ByteRanges::from_str("bytes=1-5, -10").unwrap();
    let err = ranges.match_size(6).unwrap_err();
    assert_eq!(err.status(), StatusCode::RequestedRangeNotSatisfiable);
    assert_eq!(err.status().code(), 416);
    assert_eq!(err.message(), "Invalid Range header for byte ranges");
    assert_eq!(ranges.match_size(10).unwrap_err().status().code(), 416);
    assert_eq!(ranges.match_size(11), Ok(()));
    assert_eq!(ByteRanges::new().match_size(0), Ok(()));
}

#[test]
fn byte_ranges_round_trip_single_range() {
    let mut ranges = ByteRanges::new();
    ranges.push(Some(1), Some(5));
    let mut req = request_headers("GET", "http://example.com");
    ranges.apply(&mut req);
    let read = ByteRanges::from_headers(&req).unwrap().unwrap();
    assert_eq!(read.first(), Some(ByteRange::new(Some(1), Some(5))));
    assert_eq!(read.to_string(), "bytes=1-5");
    assert_eq!(read.value(), "bytes=1-5");
    assert_eq!(read.name(), "range");
    assert_eq!(read, ranges);
}

#[test]
fn byte_ranges_round_trip_multi_range() {
    let mut ranges = ByteRanges::new();
    ranges.push(Some(1), Some(5));
    ranges.push(None, Some(5));
    assert_eq!(ranges.to_string(), "bytes=1-5,-5");
    let read = ByteRanges::from_str("bytes=1-5,-5").unwrap();
    let items: Vec<ByteRange> = read.iter().copied().collect();
    assert_eq!(items, vec![ByteRange::new(Some(1), Some(5)), ByteRange::new(None, Some(5))]);
    assert_eq!(read, ranges);
}

#[test]
fn byte_ranges_canonical_form() {
    let read = ByteRanges::from_str("bytes= 1-5 ,\t-5, 10-").unwrap();
    assert_eq!(read.to_string(), "bytes=1-5,-5,10-");
    assert_eq!(ByteRanges::from_str(&read.to_string()).unwrap(), read);
}

#[test]
fn byte_ranges_first_and_empty() {
    assert_eq!(ByteRanges::new().first(), None);
    assert_eq!(ByteRanges::default(), ByteRanges::new());
    assert_eq!(ByteRanges::new().to_string(), "bytes=");
    assert_eq!(
        ByteRanges::from_str("bytes=0-500").unwrap().first(),
        Some(ByteRange::new(Some(0), Some(500)))
    );
}

#[test]
fn byte_ranges_wrong_unit_is_bad_request() {
    for wire in ["foo=1-5", "", "bytes", "bytes 1-5", "Bytes=1-5", " bytes=1-5"] {
        let err = ByteRanges::from_str(wire).unwrap_err();
        assert_eq!(err.status(), StatusCode::BadRequest, "{wire:?}");
        assert_eq!(err.status().code(), 400);
        assert_eq!(err.message(), "Invalid Range header for byte ranges");
    }
}

#[test]
fn byte_ranges_empty_list_is_bad_request() {
    for wire in ["bytes=", "bytes=  ", "bytes=\t"] {
        let err = ByteRanges::from_str(wire).unwrap_err();
        assert_eq!(err.status(), StatusCode::BadRequest, "{wire:?}");
        assert_eq!(err.message(), "Invalid Range header for byte ranges");
    }
}

#[test]
fn byte_ranges_malformed_range_is_not_satisfiable() {
    let wires = [
        "bytes=-",
        "bytes=3-1",
        "bytes=0-0",
        "bytes=1-5,",
        "bytes=,1-5",
        "bytes=1-5,,6-7",
        "bytes=a-b",
        "bytes=1-5;6-7",
    ];
    for wire in wires {
        let err = ByteRanges::from_str(wire).unwrap_err();
        assert_eq!(err.status(), StatusCode::RequestedRangeNotSatisfiable, "{wire:?}");
        assert_eq!(err.message(), "Invalid Range header for byte ranges");
    }
}

#[test]
fn byte_ranges_malformed_header_is_an_error() {
    let mut req = request_headers("GET", "http://example.com");
    req.insert(RANGE, "bytes=3-1");
    let err = ByteRanges::from_headers(&req).unwrap_err();
    assert_eq!(err.status().code(), 416);
    req.insert(RANGE, "bytes=");
    let err = ByteRanges::from_headers(&req).unwrap_err();
    assert_eq!(err.status().code(), 400);
}

#[test]
fn byte_ranges_absent_header() {
    let mut req = request_headers("GET", "http://example.com");
    assert_eq!(ByteRanges::from_headers(&req), Ok(None));
    req.insert("content-range", "bytes 1-5/100");
    assert_eq!(ByteRanges::from_headers(&req), Ok(None));
}

#[test]
fn byte_ranges_last_header_wins() {
    let mut req = request_headers("GET", "http://example.com");
    req.append(RANGE, "bytes=3-1");
    req.append(RANGE, "bytes=1-5");
    let read = ByteRanges::from_headers(&req).unwrap().unwrap();
    assert_eq!(read.to_string(), "bytes=1-5");
    req.append(RANGE, "foo=1-5");
    assert_eq!(ByteRanges::from_headers(&req), Ok(None));
    req.append("RANGE", "bytes=7-");
    assert_eq!(
        ByteRanges::from_headers(&req).unwrap().unwrap().first(),
        Some(ByteRange::new(Some(7), None))
    );
}
