use http_range::headers::ACCEPT_RANGES;
use http_range::{AcceptRanges, Error, Headers, Unit};

/// The headers of a fresh response with the given status.
fn response_headers(_status: u16) -> Headers {
    Headers::new()
}

#[test]
fn accept_ranges_none() -> Result<(), Error> {
    let mut headers = Headers::new();
    headers.insert(ACCEPT_RANGES, "none");
    let accept_ranges = AcceptRanges::from_headers(&headers).unwrap().unwrap();
    assert_eq!(accept_ranges.other(), None);
    assert_eq!(accept_ranges.bytes(), false);

    let accept_ranges = AcceptRanges::new();
    let mut res = response_headers(200);
    accept_ranges.apply(&mut res);

    let raw_header_value = res.last(ACCEPT_RANGES).unwrap();
    assert_eq!(raw_header_value, "none");

    Ok(())
}

#[test]
fn accept_ranges_bytes() -> Result<(), Error> {
    let mut headers = Headers::new();
    headers.insert(ACCEPT_RANGES, "bytes");
    let accept_ranges = AcceptRanges::from_headers(&headers).unwrap().unwrap();
    assert_eq!(accept_ranges.bytes(), true);

    let accept_ranges = AcceptRanges::with_bytes();
    let mut res = response_headers(200);
    accept_ranges.apply(&mut res);

    let raw_header_value = res.last(ACCEPT_RANGES).unwrap();
    assert_eq!(raw_header_value, "bytes");

    Ok(())
}

#[test]
fn accept_ranges_other() -> Result<(), Error> {
    let mut headers = Headers::new();
    headers.insert(ACCEPT_RANGES, "foo");
    let accept_ranges = AcceptRanges::from_headers(&headers).unwrap().unwrap();
    assert_eq!(accept_ranges.other(), Some(&String::from("foo")));

    let accept_ranges = AcceptRanges::with_other("foo");
    let mut res = response_headers(200);
    accept_ranges.apply(&mut res);

    let raw_header_value = res.last(ACCEPT_RANGES).unwrap();
    assert_eq!(raw_header_value, "foo");

    Ok(())
}

#[test]
fn accept_ranges_round_trip_through_headers() {
    let values = [
        (AcceptRanges::default(), "none"),
        (AcceptRanges::with_bytes(), "bytes"),
        (AcceptRanges::with_other("my_custom_unit"), "my_custom_unit"),
    ];
    for (accept, wire) in values {
        assert_eq!(accept.to_string(), wire);
        assert_eq!(accept.value(), wire);
        let mut headers = Headers::new();
        accept.apply(&mut headers);
        assert_eq!(headers.last(accept.name()), Some(wire));
        assert_eq!(AcceptRanges::from_headers(&headers).unwrap(), Some(accept));
    }
}

#[test]
fn accept_ranges_units() {
    assert_eq!(AcceptRanges::new().unit(), &None);
    assert_eq!(AcceptRanges::with_bytes().unit(), &Some(Unit::Bytes));
    assert_eq!(
        AcceptRanges::from_str("items").unwrap().unit(),
        &Some(Unit::Other(String::from("items")))
    );
    assert_eq!(AcceptRanges::from_str("bytes").unwrap(), AcceptRanges::with_bytes());
    assert_eq!(AcceptRanges::from_str("none").unwrap(), AcceptRanges::new());
    // Tokens are compared as they are written.
    assert_eq!(AcceptRanges::from_str("Bytes").unwrap(), AcceptRanges::with_other("Bytes"));
    assert_eq!(AcceptRanges::from_str("").unwrap(), AcceptRanges::with_other(""));
}

#[test]
fn accept_ranges_absent_header() {
    let mut headers = Headers::new();
    assert_eq!(AcceptRanges::from_headers(&headers).unwrap(), None);
    headers.insert("content-type", "text/plain");
    assert_eq!(AcceptRanges::from_headers(&headers).unwrap(), None);
}

#[test]
fn accept_ranges_last_header_wins() {
    let mut headers = Headers::new();
    headers.append(ACCEPT_RANGES, "none");
    headers.append(ACCEPT_RANGES, "bytes");
    assert_eq!(AcceptRanges::from_headers(&headers).unwrap(), Some(AcceptRanges::with_bytes()));
    headers.append("Accept-Ranges", "foo");
    assert_eq!(
        AcceptRanges::from_headers(&headers).unwrap(),
        Some(AcceptRanges::with_other("foo"))
    );
}

#[test]
fn unit_tokens() {
    assert_eq!(Unit::default(), Unit::Bytes);
    assert_eq!(Unit::from("bytes"), Unit::Bytes);
    assert_eq!(Unit::from("my_custom_unit"), Unit::Other(String::from("my_custom_unit")));
    assert_eq!(Unit::from_token("bytes"), Unit::Bytes);
    assert_eq!(Unit::from_token("byte"), Unit::Other(String::from("byte")));
    assert_eq!(Unit::Bytes.to_string(), "bytes");
    assert_eq!(Unit::Other(String::from("items")).to_string(), "items");
}

#[test]
fn accept_ranges_writes_what_it_read() {
    let wires = ["none", "bytes", "foo", "my_custom_unit", "None", "bytes ", " none", "", "a, b"];
    for wire in wires {
        let accept = AcceptRanges::from_str(wire).unwrap();
        assert_eq!(accept.to_string(), wire);
        assert_eq!(AcceptRanges::from_str(&accept.to_string()).unwrap(), accept);
    }
}
