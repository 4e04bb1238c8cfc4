use http_range::headers::CONTENT_RANGE;
use http_range::{ByteContentRange, ByteRange, Error, Headers, StatusCode};

/// The headers of a fresh response with the given status.
fn partial_content_headers(_status: u16) -> Headers {
    Headers::new()
}

#[test]
fn byte_content_range_and_size() -> Result<(), Error> {
    let mut res = partial_content_headers(206);
    res.insert(CONTENT_RANGE, "bytes 1-5/100");
    let content_range = ByteContentRange::from_headers(&res)?.unwrap();
    assert_eq!(content_range.range(), Some(ByteRange::new(Some(1), Some(5))));
    assert_eq!(content_range.size(), Some(100));
    Ok(())
}

#[test]
fn byte_content_range_and_unknown_size() -> Result<(), Error> {
    let mut res = partial_content_headers(206);
    res.insert(CONTENT_RANGE, "bytes 1-5/*");
    let content_range = ByteContentRange::from_headers(&res)?.unwrap();
    assert_eq!(content_range.range(), Some(ByteRange::new(Some(1), Some(5))));
    assert_eq!(content_range.size(), None);
    Ok(())
}

#[test]
fn byte_content_no_range_and_size() -> Result<(), Error> {
    let mut res = partial_content_headers(206);
    res.insert(CONTENT_RANGE, "bytes */100");
    let content_range = ByteContentRange::from_headers(&res)?.unwrap();
    assert_eq!(content_range.range(), None);
    assert_eq!(content_range.size(), Some(100));
    Ok(())
}

#[test]
#[should_panic(expected = "Invalid Content-Range value")]
fn byte_content_no_range_and_no_size() {
    let mut res = partial_content_headers(206);
    res.insert(CONTENT_RANGE, "bytes */*");
    ByteContentRange::from_headers(&res).unwrap();
}

#[test]
#[should_panic(expected = "Invalid Content-Range value")]
fn byte_content_invalid_range() {
    let mut res = partial_content_headers(206);
    res.insert(CONTENT_RANGE, "bytes a-b/*");
    ByteContentRange::from_headers(&res).unwrap();
}

#[test]
#[should_panic(expected = "Invalid Content-Range value")]
fn byte_content_invalid_size() {
    let mut res = partial_content_headers(206);
    res.insert(CONTENT_RANGE, "bytes */abc");
    ByteContentRange::from_headers(&res).unwrap();
}

#[test]
#[should_panic(expected = "Invalid Content-Range value")]
fn byte_content_invalid_range_end() {
    let mut res = partial_content_headers(206);
    res.insert(CONTENT_RANGE, "bytes 5-4/*");
    ByteContentRange::from_headers(&res).unwrap();
}

#[test]
#[should_panic(expected = "Invalid Content-Range value")]
fn byte_content_range_overflow_size() {
    let mut res = partial_content_headers(206);
    res.insert(CONTENT_RANGE, "bytes 1-4/3");
    ByteContentRange::from_headers(&res).unwrap();
}

#[test]
fn byte_content_apply_range_and_size() {
    let content_range = ByteContentRange::new().with_range(1, 5).with_size(100);
    let mut res = partial_content_headers(206);
    content_range.apply(&mut res);
    assert_eq!(res.last(CONTENT_RANGE).unwrap(), "bytes 1-5/100");
}

#[test]
fn byte_content_apply_range_and_no_size() {
    let content_range = ByteContentRange::new().with_range(1, 5);
    let mut res = partial_content_headers(206);
    content_range.apply(&mut res);
    assert_eq!(res.last(CONTENT_RANGE).unwrap(), "bytes 1-5/*");
}

#[test]
fn byte_content_apply_no_range_and_size() {
    let content_range = ByteContentRange::new().with_size(100);
    let mut res = partial_content_headers(206);
    content_range.apply(&mut res);
    assert_eq!(res.last(CONTENT_RANGE).unwrap(), "bytes */100");
}

#[test]
fn byte_content_range_parses_and_renders_identically() {
    let wires = [
        "bytes 1-5/100",
        "bytes */100",
        "bytes 1-5/*",
        "bytes 0-1/2",
        "bytes 0-18446744073709551614/18446744073709551615",
    ];
    for wire in wires {
        let read = ByteContentRange::from_str(wire).unwrap();
        assert_eq!(read.to_string(), wire);
        assert_eq!(read.value(), wire);
        assert_eq!(ByteContentRange::from_str(&read.to_string()), Ok(read));
    }
    let read = ByteContentRange::from_str("bytes 1-5/100").unwrap();
    assert_eq!(read.range(), Some(ByteRange::new(Some(1), Some(5))));
    assert_eq!(read.size(), Some(100));
    assert_eq!(read.name(), "content-range");
    let read = ByteContentRange::from_str("bytes */100").unwrap();
    assert_eq!(read.range(), None);
    assert_eq!(read.size(), Some(100));
}

#[test]
fn byte_content_range_errors_carry_status_and_message() {
    let wires = [
        "bytes 1-4/3", "bytes 1-4/4", "bytes */*", "bytes 5-4/*", "bytes 5-5/*", "bytes a-b/*",
        "bytes */abc", "bytes 1-/10", "bytes -5/10", "bytes 1-5", "bytes", "", "foo 1-5/10",
        "bytes 1-5/ 100", "bytes 1-5/100 ", "bytes * /100", "bytes 1-5/*/", "bytes 1-5/",
        "bytes /100",
    ];
    for wire in wires {
        let err = ByteContentRange::from_str(wire).unwrap_err();
        assert_eq!(err.status(), StatusCode::RequestedRangeNotSatisfiable, "{wire:?}");
        assert_eq!(err.status().code(), 416);
        assert_eq!(err.message(), "Invalid Content-Range value");
    }
}

#[test]
fn byte_content_range_canonical_form() {
    let canonical = ByteContentRange::new().with_range(1, 5).with_size(100);
    let wires =
        ["bytes 1-5/100", "bytes   1-5/100", "bytes1-5/100", "bytes 1-5 /100", "bytes\t01-5/+100"];
    for wire in wires {
        let read = ByteContentRange::from_str(wire).unwrap();
        assert_eq!(read, canonical, "{wire:?}");
        assert_eq!(read.to_string(), "bytes 1-5/100");
    }
}

#[test]
fn byte_content_range_builders() {
    assert_eq!(ByteContentRange::new(), ByteContentRange::default());
    assert_eq!(ByteContentRange::new().range(), None);
    assert_eq!(ByteContentRange::new().size(), None);
    assert_eq!(ByteContentRange::new().to_string(), "bytes */*");
    let value = ByteContentRange::new().with_size(10).with_range(1, 5);
    assert_eq!(value.range(), Some(ByteRange::new(Some(1), Some(5))));
    assert_eq!(value.size(), Some(10));
    assert_eq!(value.with_size(20).size(), Some(20));
    assert_eq!(value.with_range(2, 3).range(), Some(ByteRange::new(Some(2), Some(3))));
}

#[test]
fn byte_content_range_other_unit_or_absent_header() {
    let mut res = partial_content_headers(206);
    assert_eq!(ByteContentRange::from_headers(&res), Ok(None));
    res.insert(CONTENT_RANGE, "items 1-5/100");
    assert_eq!(ByteContentRange::from_headers(&res), Ok(None));
}

#[test]
fn byte_content_range_last_header_wins() {
    let mut res = partial_content_headers(206);
    res.append(CONTENT_RANGE, "bytes */*");
    res.append(CONTENT_RANGE, "bytes 1-5/100");
    let read = ByteContentRange::from_headers(&res).unwrap().unwrap();
    assert_eq!(read, ByteContentRange::new().with_range(1, 5).with_size(100));
    res.append("Content-Range", "bytes 1-4/3");
    assert_eq!(ByteContentRange::from_headers(&res).unwrap_err().status().code(), 416);
}
